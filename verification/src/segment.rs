//! The segment tree: a loss-less, persistent syntax tree held in an arena.
//!
//! A segment is named by its slot in the arena, which is its identity. The
//! children of a segment always sit in earlier slots, so a tree is built
//! leaves first and an edit adds new segments for the edited path while it
//! shares every untouched subtree.

use vstd::prelude::*;
use vstd::string::*;
use crate::text::{str_eq, to_uppercase, uppercase_of};

verus! {

/// A segment as the arena stores it.
pub struct Segment {
    kind: String,
    raw: String,
    children: Vec<usize>,
}

/// The content of one segment: its type tag, its own text (used when it
/// is a leaf) and the slots of its children in order.
pub struct SegmentData {
    pub kind: Seq<char>,
    pub raw: Seq<char>,
    pub children: Seq<usize>,
}

impl View for Segment {
    type V = SegmentData;

    closed spec fn view(&self) -> SegmentData {
        SegmentData { kind: self.kind@, raw: self.raw@, children: self.children@ }
    }
}

/// Every child sits in an earlier slot than its parent, and only a leaf
/// has text of its own.
pub open spec fn arena_wf(a: Seq<SegmentData>) -> bool {
    &&& forall|i: int, j: int|
        0 <= i < a.len() && 0 <= j < a[i].children.len() ==> (#[trigger] a[i].children[j]) < i
    &&& forall|i: int|
        0 <= i < a.len() && (#[trigger] a[i]).children.len() > 0 ==> a[i].raw.len() == 0
}

/// `b` holds everything `a` holds, in the same slots.
pub open spec fn extends(b: Seq<SegmentData>, a: Seq<SegmentData>) -> bool {
    a.len() <= b.len() && forall|i: int| 0 <= i < a.len() ==> #[trigger] b[i] == a[i]
}

/// The source text that segment `id` spans: its own text for a leaf, the
/// texts of its children in order otherwise.
pub open spec fn text_of(a: Seq<SegmentData>, id: int) -> Seq<char>
    decreases id, 1int, 0int,
{
    if 0 <= id < a.len() {
        if a[id].children.len() == 0 {
            a[id].raw
        } else {
            text_of_all(a, a[id].children, id)
        }
    } else {
        Seq::empty()
    }
}

/// The texts of the segments `ids` one after another; only slots below
/// `bound` count.
pub open spec fn text_of_all(a: Seq<SegmentData>, ids: Seq<usize>, bound: int) -> Seq<char>
    decreases bound, 0int, ids.len(),
{
    if ids.len() == 0 {
        Seq::empty()
    } else {
        text_of_all(a, ids.drop_last(), bound) + (if ids.last() < bound {
            text_of(a, ids.last() as int)
        } else {
            Seq::empty()
        })
    }
}

/// Segment `id` and everything below it, in document order.
pub open spec fn preorder(a: Seq<SegmentData>, id: int) -> Seq<usize>
    decreases id, 1int, 0int,
{
    if 0 <= id < a.len() {
        seq![id as usize] + preorder_all(a, a[id].children, id)
    } else {
        Seq::empty()
    }
}

/// The document-order listings of the segments `ids` one after another;
/// only slots below `bound` count.
pub open spec fn preorder_all(a: Seq<SegmentData>, ids: Seq<usize>, bound: int) -> Seq<usize>
    decreases bound, 0int, ids.len(),
{
    if ids.len() == 0 {
        Seq::empty()
    } else {
        preorder_all(a, ids.drop_last(), bound) + (if ids.last() < bound {
            preorder(a, ids.last() as int)
        } else {
            Seq::empty()
        })
    }
}

/// What occurs in a joined sequence occurs in one of its parts.
pub proof fn lemma_contains_concat(s: Seq<usize>, t: Seq<usize>, x: usize)
    ensures
        (s + t).contains(x) <==> s.contains(x) || t.contains(x),
{
    if s.contains(x) {
        let i = choose|i: int| 0 <= i < s.len() && s[i] == x;
        assert((s + t)[i] == x);
    }
    if t.contains(x) {
        let i = choose|i: int| 0 <= i < t.len() && t[i] == x;
        assert((s + t)[s.len() + i] == x);
    }
    if (s + t).contains(x) {
        let i = choose|i: int| 0 <= i < (s + t).len() && (s + t)[i] == x;
        if i < s.len() {
            assert(s[i] == x);
        } else {
            assert(t[i - s.len()] == x);
        }
    }
}

/// What lies below some of the segments lies below all of them.
pub proof fn lemma_preorder_all_take(
    a: Seq<SegmentData>,
    ids: Seq<usize>,
    n: int,
    bound: int,
    x: usize,
)
    requires
        0 <= n <= ids.len(),
        preorder_all(a, ids.take(n), bound).contains(x),
    ensures
        preorder_all(a, ids, bound).contains(x),
    decreases ids.len() - n,
{
    if n < ids.len() {
        assert(ids.take(n + 1).drop_last() == ids.take(n));
        lemma_contains_concat(
            preorder_all(a, ids.take(n), bound),
            if ids[n] < bound {
                preorder(a, ids[n] as int)
            } else {
                Seq::empty()
            },
            x,
        );
        lemma_preorder_all_take(a, ids, n + 1, bound, x);
    } else {
        assert(ids.take(n) == ids);
    }
}

/// What lies below one of the segments lies below all of them.
pub proof fn lemma_preorder_all_part(
    a: Seq<SegmentData>,
    ids: Seq<usize>,
    j: int,
    bound: int,
    x: usize,
)
    requires
        0 <= j < ids.len(),
        ids[j] < bound,
        preorder(a, ids[j] as int).contains(x),
    ensures
        preorder_all(a, ids, bound).contains(x),
{
    assert(ids.take(j + 1).drop_last() == ids.take(j));
    assert(ids.take(j + 1).last() == ids[j]);
    lemma_contains_concat(
        preorder_all(a, ids.take(j), bound),
        preorder(a, ids[j] as int),
        x,
    );
    lemma_preorder_all_take(a, ids, j + 1, bound, x);
}

/// Segment `x` is `id` itself or lies below it.
pub open spec fn in_subtree(a: Seq<SegmentData>, id: int, x: usize) -> bool {
    preorder(a, id).contains(x)
}

/// Segment `x` lies strictly below `id`.
pub open spec fn is_descendant(a: Seq<SegmentData>, id: int, x: usize) -> bool {
    0 <= id < a.len() && preorder_all(a, a[id].children, id).contains(x)
}

/// Segments of this type are whitespace or line breaks.
pub open spec fn is_whitespace_kind(kind: Seq<char>) -> bool {
    kind == "whitespace"@ || kind == "newline"@
}

/// Segments of this type are structural markers, which have no text.
pub open spec fn is_meta_kind(kind: Seq<char>) -> bool {
    kind == "indent"@ || kind == "dedent"@ || kind == "end_of_file"@
}

/// Segments of this type are comments.
pub open spec fn is_comment_kind(kind: Seq<char>) -> bool {
    kind == "comment"@ || kind == "inline_comment"@ || kind == "block_comment"@
}

/// Segments of this type are code: no whitespace, comment or marker.
pub open spec fn is_code_kind(kind: Seq<char>) -> bool {
    !is_whitespace_kind(kind) && !is_meta_kind(kind) && !is_comment_kind(kind)
}

/// The type tag is one of `types`.
pub open spec fn kind_in(kind: Seq<char>, types: Seq<Seq<char>>) -> bool {
    types.contains(kind)
}

/// The views of a list of texts.
pub open spec fn views_of(types: Seq<&str>) -> Seq<Seq<char>> {
    types.map_values(|t: &str| t@)
}

/// Whether segments of type `kind` are whitespace or line breaks.
pub fn whitespace_kind(kind: &str) -> (yes: bool)
    ensures
        yes == is_whitespace_kind(kind@),
{
    str_eq(kind, "whitespace") || str_eq(kind, "newline")
}

/// Whether segments of type `kind` are structural markers.
pub fn meta_kind(kind: &str) -> (yes: bool)
    ensures
        yes == is_meta_kind(kind@),
{
    str_eq(kind, "indent") || str_eq(kind, "dedent") || str_eq(kind, "end_of_file")
}

/// Whether segments of type `kind` are comments.
pub fn comment_kind(kind: &str) -> (yes: bool)
    ensures
        yes == is_comment_kind(kind@),
{
    str_eq(kind, "comment") || str_eq(kind, "inline_comment") || str_eq(kind, "block_comment")
}

/// Whether segments of type `kind` are code.
pub fn code_kind(kind: &str) -> (yes: bool)
    ensures
        yes == is_code_kind(kind@),
{
    !whitespace_kind(kind) && !meta_kind(kind) && !comment_kind(kind)
}

/// Whether `kind` is one of `types`.
pub fn kind_among(kind: &str, types: &[&str]) -> (yes: bool)
    ensures
        yes == kind_in(kind@, views_of(types@)),
{
    let mut i: usize = 0;
    while i < types.len()
        invariant
            0 <= i <= types@.len(),
            forall|k: int| 0 <= k < i ==> types@[k]@ != kind@,
        decreases types@.len() - i,
    {
        if str_eq(kind, types[i]) {
            assert(views_of(types@)[i as int] == kind@);
            return true;
        }
        i = i + 1;
    }
    false
}

/// The test "the segment in this slot has one of these types".
pub open spec fn has_kind_in(a: Seq<SegmentData>, types: Seq<Seq<char>>) -> spec_fn(usize) -> bool {
    |k: usize| k < a.len() && kind_in(a[k as int].kind, types)
}

/// The children of segment `id` whose type is among `types`, in order.
pub open spec fn children_of_kind(a: Seq<SegmentData>, id: int, types: Seq<Seq<char>>) -> Seq<
    usize,
> {
    if 0 <= id < a.len() {
        a[id].children.filter(has_kind_in(a, types))
    } else {
        Seq::empty()
    }
}

/// The first child of segment `id` whose type is among `types`.
pub open spec fn first_child(a: Seq<SegmentData>, id: int, types: Seq<Seq<char>>) -> Option<usize> {
    let found = children_of_kind(a, id, types);
    if found.len() > 0 {
        Some(found[0])
    } else {
        None
    }
}

/// The leaves below segment `id`, or `id` itself if it is a leaf, in
/// document order.
pub open spec fn leaves_of(a: Seq<SegmentData>, id: int) -> Seq<usize>
    decreases id, 1int, 0int,
{
    if 0 <= id < a.len() {
        if a[id].children.len() == 0 {
            seq![id as usize]
        } else {
            leaves_of_all(a, a[id].children, id)
        }
    } else {
        Seq::empty()
    }
}

/// The leaves of the segments `ids` one after another; only slots below
/// `bound` count.
pub open spec fn leaves_of_all(a: Seq<SegmentData>, ids: Seq<usize>, bound: int) -> Seq<usize>
    decreases bound, 0int, ids.len(),
{
    if ids.len() == 0 {
        Seq::empty()
    } else {
        leaves_of_all(a, ids.drop_last(), bound) + (if ids.last() < bound {
            leaves_of(a, ids.last() as int)
        } else {
            Seq::empty()
        })
    }
}

/// The own texts of the segments `leaves`, one after another.
pub open spec fn leaf_texts(a: Seq<SegmentData>, leaves: Seq<usize>) -> Seq<char>
    decreases leaves.len(),
{
    if leaves.len() == 0 {
        Seq::empty()
    } else {
        leaf_texts(a, leaves.drop_last()) + (if leaves.last() < a.len() {
            a[leaves.last() as int].raw
        } else {
            Seq::empty()
        })
    }
}

/// The own texts of two runs of segments joined are those of the first
/// and then those of the second.
pub proof fn lemma_leaf_texts_concat(a: Seq<SegmentData>, s: Seq<usize>, t: Seq<usize>)
    ensures
        leaf_texts(a, s + t) == leaf_texts(a, s) + leaf_texts(a, t),
    decreases t.len(),
{
    if t.len() == 0 {
        assert(s + t =~= s);
        assert(leaf_texts(a, s) + Seq::<char>::empty() =~= leaf_texts(a, s));
    } else {
        lemma_leaf_texts_concat(a, s, t.drop_last());
        assert((s + t).drop_last() =~= s + t.drop_last());
        assert((s + t).last() == t.last());
        let last = if t.last() < a.len() {
            a[t.last() as int].raw
        } else {
            Seq::empty()
        };
        assert((leaf_texts(a, s) + leaf_texts(a, t.drop_last())) + last =~= leaf_texts(a, s) + (
        leaf_texts(a, t.drop_last()) + last));
    }
}

/// Losslessness: the text that a segment spans is the text of its
/// leaves, read in document order.
pub proof fn lemma_text_is_leaf_text(a: Seq<SegmentData>, id: int)
    requires
        a.len() <= usize::MAX,
        0 <= id < a.len(),
    ensures
        text_of(a, id) == leaf_texts(a, leaves_of(a, id)),
    decreases id, 1int, 0int,
{
    if a[id].children.len() == 0 {
        assert(seq![id as usize].drop_last() =~= Seq::<usize>::empty());
        assert(leaf_texts(a, Seq::<usize>::empty()) =~= Seq::<char>::empty());
        assert(Seq::<char>::empty() + a[id].raw =~= a[id].raw);
    } else {
        lemma_text_is_leaf_text_all(a, a[id].children, id);
    }
}

/// The text that a run of segments spans is the text of their leaves.
pub proof fn lemma_text_is_leaf_text_all(a: Seq<SegmentData>, ids: Seq<usize>, bound: int)
    requires
        a.len() <= usize::MAX,
        0 <= bound <= a.len(),
    ensures
        text_of_all(a, ids, bound) == leaf_texts(a, leaves_of_all(a, ids, bound)),
    decreases bound, 0int, ids.len(),
{
    if ids.len() > 0 {
        lemma_text_is_leaf_text_all(a, ids.drop_last(), bound);
        let before = leaves_of_all(a, ids.drop_last(), bound);
        if ids.last() < bound {
            lemma_text_is_leaf_text(a, ids.last() as int);
            lemma_leaf_texts_concat(a, before, leaves_of(a, ids.last() as int));
        } else {
            assert(before + Seq::<usize>::empty() =~= before);
            assert(text_of_all(a, ids.drop_last(), bound) + Seq::<char>::empty()
                =~= text_of_all(a, ids.drop_last(), bound));
        }
    }
}

/// Every entry of the leaves below a segment is a leaf of the arena.
pub proof fn lemma_leaves_are_leaves(a: Seq<SegmentData>, id: int, i: int)
    requires
        a.len() <= usize::MAX,
        0 <= i < leaves_of(a, id).len(),
    ensures
        leaves_of(a, id)[i] < a.len(),
        a[leaves_of(a, id)[i] as int].children.len() == 0,
    decreases id, 1int, 0int,
{
    if 0 <= id < a.len() {
        if a[id].children.len() > 0 {
            lemma_leaves_among(a, a[id].children, id, i);
        } else {
            assert(leaves_of(a, id)[0] == id as usize);
        }
    }
}

/// Every entry of the leaves below a run of segments is a leaf of the
/// arena.
pub proof fn lemma_leaves_among(a: Seq<SegmentData>, ids: Seq<usize>, bound: int, i: int)
    requires
        a.len() <= usize::MAX,
        0 <= i < leaves_of_all(a, ids, bound).len(),
    ensures
        leaves_of_all(a, ids, bound)[i] < a.len(),
        a[leaves_of_all(a, ids, bound)[i] as int].children.len() == 0,
    decreases bound, 0int, ids.len(),
{
    if ids.len() > 0 {
        let before = leaves_of_all(a, ids.drop_last(), bound);
        if i < before.len() {
            lemma_leaves_among(a, ids.drop_last(), bound, i);
        } else {
            lemma_leaves_are_leaves(a, ids.last() as int, i - before.len());
        }
    }
}

/// Copies `ids` from place `from` up to place `to`.
pub fn copy_range(ids: &Vec<usize>, from: usize, to: usize) -> (out: Vec<usize>)
    requires
        from <= to <= ids@.len(),
    ensures
        out@ == ids@.subrange(from as int, to as int),
{
    let mut out: Vec<usize> = Vec::new();
    let mut i: usize = from;
    while i < to
        invariant
            from <= i <= to <= ids@.len(),
            out@ == ids@.subrange(from as int, i as int),
        decreases to - i,
    {
        out.push(ids[i]);
        proof {
            assert(out@ =~= ids@.subrange(from as int, i + 1));
        }
        i = i + 1;
    }
    out
}

/// The arena that owns every segment of a document, old and new.
pub struct SegmentArena {
    nodes: Vec<Segment>,
}

impl View for SegmentArena {
    type V = Seq<SegmentData>;

    closed spec fn view(&self) -> Seq<SegmentData> {
        self.nodes@.map_values(|s: Segment| s@)
    }
}

impl SegmentArena {
    /// Every child sits in an earlier slot than its parent, and only a
    /// leaf has text of its own.
    pub open spec fn wf(&self) -> bool {
        arena_wf(self@)
    }

    /// The number of segments fits a `usize`.
    pub proof fn lemma_len_fits(&self)
        ensures
            self@.len() <= usize::MAX,
    {
        assert(self.nodes@.len() == self.nodes.len());
    }

    /// An arena without segments.
    pub fn new() -> (arena: SegmentArena)
        ensures
            arena.wf(),
            arena@ == Seq::<SegmentData>::empty(),
    {
        let arena = SegmentArena { nodes: Vec::new() };
        assert(arena@ =~= Seq::<SegmentData>::empty());
        arena
    }

    /// The number of segments in the arena.
    pub fn len(&self) -> (n: usize)
        ensures
            n == self@.len(),
    {
        self.nodes.len()
    }

    /// Adds a leaf and returns its slot.
    pub fn add_leaf(&mut self, kind: &str, raw: &str) -> (id: usize)
        requires
            old(self).wf(),
        ensures
            final(self).wf(),
            id == old(self)@.len(),
            final(self)@ == old(self)@.push(
                SegmentData { kind: kind@, raw: raw@, children: Seq::empty() },
            ),
    {
        let id = self.nodes.len();
        let seg = Segment { kind: kind.to_owned(), raw: raw.to_owned(), children: Vec::new() };
        self.nodes.push(seg);
        assert(self@ =~= old(self)@.push(
            SegmentData { kind: kind@, raw: raw@, children: Seq::empty() },
        ));
        id
    }

    /// Whether every slot in `ids` is in the arena.
    pub fn holds_all(&self, ids: &Vec<usize>) -> (yes: bool)
        ensures
            yes == (forall|j: int| 0 <= j < ids@.len() ==> ids@[j] < self@.len()),
    {
        let mut j: usize = 0;
        while j < ids.len()
            invariant
                0 <= j <= ids@.len(),
                forall|k: int| 0 <= k < j ==> ids@[k] < self@.len(),
            decreases ids@.len() - j,
        {
            if ids[j] >= self.nodes.len() {
                return false;
            }
            j = j + 1;
        }
        true
    }

    /// Adds a segment over `children` and returns its slot, or `None`, with
    /// nothing added, when a child is not in the arena.
    pub fn add_node(&mut self, kind: &str, children: Vec<usize>) -> (id: Option<usize>)
        requires
            old(self).wf(),
        ensures
            final(self).wf(),
            id is Some <==> (forall|j: int|
                0 <= j < children@.len() ==> children@[j] < old(self)@.len()),
            id is Some ==> id == Some(old(self)@.len() as usize) && final(self)@ == old(self)@.push(
                SegmentData { kind: kind@, raw: Seq::empty(), children: children@ },
            ),
            id is None ==> final(self)@ == old(self)@,
    {
        if !self.holds_all(&children) {
            return None;
        }
        let id = self.nodes.len();
        let ghost kids = children@;
        let seg = Segment { kind: kind.to_owned(), raw: String::new(), children };
        self.nodes.push(seg);
        assert(self@ =~= old(self)@.push(
            SegmentData { kind: kind@, raw: Seq::empty(), children: kids },
        ));
        Some(id)
    }

    /// Adds a segment with the type and own text of segment `like` over
    /// `children`, and returns its slot.
    pub fn add_like(&mut self, like: usize, children: Vec<usize>) -> (id: usize)
        requires
            old(self).wf(),
            like < old(self)@.len(),
            children@.len() > 0 ==> old(self)@[like as int].raw.len() == 0,
            forall|j: int| 0 <= j < children@.len() ==> children@[j] < old(self)@.len(),
        ensures
            final(self).wf(),
            id == old(self)@.len(),
            final(self)@ == old(self)@.push(
                SegmentData {
                    kind: old(self)@[like as int].kind,
                    raw: old(self)@[like as int].raw,
                    children: children@,
                },
            ),
    {
        let id = self.nodes.len();
        let ghost kids = children@;
        let seg = Segment {
            kind: self.nodes[like].kind.clone(),
            raw: self.nodes[like].raw.clone(),
            children,
        };
        self.nodes.push(seg);
        assert(self@ =~= old(self)@.push(
            SegmentData {
                kind: old(self)@[like as int].kind,
                raw: old(self)@[like as int].raw,
                children: kids,
            },
        ));
        id
    }

    /// The text that segment `id` spans, in upper case.
    pub fn get_raw_upper(&self, id: usize) -> (out: String)
        requires
            self.wf(),
            id < self@.len(),
        ensures
            out@ == uppercase_of(text_of(self@, id as int)),
    {
        let raw = self.raw_of(id);
        to_uppercase(raw.as_str())
    }

    /// Whether segment `id` has the type `kind`.
    pub fn is_type(&self, id: usize, kind: &str) -> (yes: bool)
        requires
            id < self@.len(),
        ensures
            yes == (self@[id as int].kind == kind@),
    {
        str_eq(self.kind(id), kind)
    }

    /// Whether segment `id` is a structural marker without text.
    pub fn is_meta(&self, id: usize) -> (yes: bool)
        requires
            id < self@.len(),
        ensures
            yes == is_meta_kind(self@[id as int].kind),
    {
        meta_kind(self.kind(id))
    }

    /// Whether segment `id` is code: no whitespace, comment or marker.
    pub fn is_code(&self, id: usize) -> (yes: bool)
        requires
            id < self@.len(),
        ensures
            yes == is_code_kind(self@[id as int].kind),
    {
        code_kind(self.kind(id))
    }

    /// Whether segment `id` is whitespace or a line break.
    pub fn is_whitespace(&self, id: usize) -> (yes: bool)
        requires
            id < self@.len(),
        ensures
            yes == is_whitespace_kind(self@[id as int].kind),
    {
        whitespace_kind(self.kind(id))
    }

    /// Adds a copy of segment `id`: a segment with the same content and
    /// an identity of its own. Returns its slot.
    pub fn duplicate(&mut self, id: usize) -> (copy: usize)
        requires
            old(self).wf(),
            id < old(self)@.len(),
        ensures
            final(self).wf(),
            copy == old(self)@.len(),
            copy != id,
            final(self)@ == old(self)@.push(old(self)@[id as int]),
    {
        let n = self.children(id).len();
        let kids = copy_range(self.children(id), 0, n);
        proof {
            assert(self@[id as int].children.subrange(0, n as int) == self@[id as int].children);
        }
        self.add_like(id, kids)
    }

    /// Whether segment `x` is segment `id` or lies below it.
    pub fn in_subtree(&self, id: usize, x: usize) -> (yes: bool)
        requires
            self.wf(),
            id < self@.len(),
        ensures
            yes == in_subtree(self@, id as int, x),
        decreases id,
    {
        if id == x {
            assert(preorder(self@, id as int)[0] == x);
            return true;
        }
        let yes = self.has_descendant(id, x);
        proof {
            lemma_contains_concat(
                seq![id],
                preorder_all(self@, self@[id as int].children, id as int),
                x,
            );
        }
        yes
    }

    /// Whether segment `x` lies strictly below segment `id`.
    pub fn has_descendant(&self, id: usize, x: usize) -> (yes: bool)
        requires
            self.wf(),
            id < self@.len(),
        ensures
            yes == is_descendant(self@, id as int, x),
        decreases id, 0int,
    {
        let kids = self.children(id);
        let mut i: usize = 0;
        while i < kids.len()
            invariant
                self.wf(),
                id < self@.len(),
                kids@ == self@[id as int].children,
                forall|j: int| 0 <= j < kids@.len() ==> kids@[j] < id,
                0 <= i <= kids@.len(),
                !preorder_all(self@, kids@.take(i as int), id as int).contains(x),
            decreases kids@.len() - i,
        {
            proof {
                assert(kids@.take(i + 1).drop_last() == kids@.take(i as int));
                lemma_contains_concat(
                    preorder_all(self@, kids@.take(i as int), id as int),
                    preorder(self@, kids@[i as int] as int),
                    x,
                );
            }
            if self.in_subtree(kids[i], x) {
                proof {
                    lemma_preorder_all_take(self@, kids@, i + 1, id as int, x);
                }
                return true;
            }
            i = i + 1;
        }
        proof {
            assert(kids@.take(i as int) == kids@);
        }
        false
    }

    /// The children of segment `id` whose type is among `types`.
    pub fn children_of_kind(&self, id: usize, types: &[&str]) -> (out: Vec<usize>)
        requires
            self.wf(),
            id < self@.len(),
        ensures
            out@ == children_of_kind(self@, id as int, views_of(types@)),
            forall|j: int| 0 <= j < out@.len() ==> out@[j] < id,
    {
        let kids = self.children(id);
        let ghost pick = has_kind_in(self@, views_of(types@));
        let mut out: Vec<usize> = Vec::new();
        let mut i: usize = 0;
        proof {
            reveal(Seq::filter);
        }
        while i < kids.len()
            invariant
                self.wf(),
                id < self@.len(),
                kids@ == self@[id as int].children,
                forall|j: int| 0 <= j < kids@.len() ==> kids@[j] < id,
                pick == has_kind_in(self@, views_of(types@)),
                0 <= i <= kids@.len(),
                out@ == kids@.take(i as int).filter(pick),
                forall|j: int| 0 <= j < out@.len() ==> out@[j] < id,
            decreases kids@.len() - i,
        {
            proof {
                reveal(Seq::filter);
                assert(kids@.take(i + 1).drop_last() == kids@.take(i as int));
            }
            if kind_among(self.kind(kids[i]), types) {
                out.push(kids[i]);
            }
            i = i + 1;
        }
        proof {
            assert(kids@.take(i as int) == kids@);
        }
        out
    }

    /// The first child of segment `id` whose type is among `types`.
    pub fn child(&self, id: usize, types: &[&str]) -> (out: Option<usize>)
        requires
            self.wf(),
            id < self@.len(),
        ensures
            out == first_child(self@, id as int, views_of(types@)),
            out matches Some(k) ==> k < id,
    {
        let found = self.children_of_kind(id, types);
        if found.len() > 0 {
            Some(found[0])
        } else {
            None
        }
    }

    /// The first child of segment `id` of type `kind`.
    pub fn child_of_type(&self, id: usize, kind: &str) -> (out: Option<usize>)
        requires
            self.wf(),
            id < self@.len(),
        ensures
            out == first_child(self@, id as int, seq![kind@]),
            out matches Some(k) ==> k < id,
    {
        let types = [kind];
        assert(views_of(types@) =~= seq![kind@]);
        self.child(id, &types)
    }

    /// The leaves below segment `id`, in document order.
    pub fn get_raw_segments(&self, id: usize) -> (out: Vec<usize>)
        requires
            self.wf(),
            id < self@.len(),
        ensures
            out@ == leaves_of(self@, id as int),
            forall|j: int| 0 <= j < out@.len() ==> out@[j] <= id,
    {
        let mut out: Vec<usize> = Vec::new();
        self.collect_leaves(id, &mut out);
        proof {
            assert(Seq::<usize>::empty() + leaves_of(self@, id as int) =~= leaves_of(
                self@,
                id as int,
            ));
        }
        out
    }

    fn collect_leaves(&self, id: usize, out: &mut Vec<usize>)
        requires
            self.wf(),
            id < self@.len(),
        ensures
            final(out)@ == old(out)@ + leaves_of(self@, id as int),
            forall|j: int| old(out)@.len() <= j < final(out)@.len() ==> final(out)@[j] <= id,
        decreases id,
    {
        let kids = self.children(id);
        if kids.len() == 0 {
            out.push(id);
            proof {
                assert(out@ =~= old(out)@ + seq![id]);
            }
        } else {
            let mut i: usize = 0;
            proof {
                assert(old(out)@ + Seq::<usize>::empty() =~= old(out)@);
            }
            while i < kids.len()
                invariant
                    self.wf(),
                    id < self@.len(),
                    kids@ == self@[id as int].children,
                    forall|j: int| 0 <= j < kids@.len() ==> kids@[j] < id,
                    0 <= i <= kids@.len(),
                    out@ == old(out)@ + leaves_of_all(self@, kids@.take(i as int), id as int),
                    forall|j: int| old(out)@.len() <= j < out@.len() ==> out@[j] <= id,
                decreases kids@.len() - i,
            {
                let ghost before = out@;
                self.collect_leaves(kids[i], out);
                proof {
                    assert(kids@.take(i + 1).drop_last() == kids@.take(i as int));
                    assert(out@ =~= old(out)@ + (leaves_of_all(
                        self@,
                        kids@.take(i as int),
                        id as int,
                    ) + leaves_of(self@, kids@[i as int] as int)));
                }
                i = i + 1;
            }
            proof {
                assert(kids@.take(i as int) == kids@);
            }
        }
    }

    /// The type tag of segment `id`.
    pub fn kind(&self, id: usize) -> (kind: &str)
        requires
            id < self@.len(),
        ensures
            kind@ == self@[id as int].kind,
    {
        self.nodes[id].kind.as_str()
    }

    /// The own text of segment `id`: what it spans when it is a leaf.
    pub fn leaf_text(&self, id: usize) -> (raw: &str)
        requires
            id < self@.len(),
        ensures
            raw@ == self@[id as int].raw,
    {
        self.nodes[id].raw.as_str()
    }

    /// The children of segment `id`, in order.
    pub fn children(&self, id: usize) -> (kids: &Vec<usize>)
        requires
            self.wf(),
            id < self@.len(),
        ensures
            kids@ == self@[id as int].children,
            forall|j: int| 0 <= j < kids@.len() ==> kids@[j] < id,
    {
        &self.nodes[id].children
    }

    /// The text that segment `id` spans.
    pub fn raw_of(&self, id: usize) -> (out: String)
        requires
            self.wf(),
            id < self@.len(),
        ensures
            out@ == text_of(self@, id as int),
        decreases id,
    {
        let kids = self.children(id);
        if kids.len() == 0 {
            self.nodes[id].raw.clone()
        } else {
            let mut out = String::new();
            let mut i: usize = 0;
            while i < kids.len()
                invariant
                    self.wf(),
                    id < self@.len(),
                    kids@ == self@[id as int].children,
                    forall|j: int| 0 <= j < kids@.len() ==> kids@[j] < id,
                    0 <= i <= kids@.len(),
                    out@ == text_of_all(self@, kids@.take(i as int), id as int),
                decreases kids@.len() - i,
            {
                let part = self.raw_of(kids[i]);
                out.append(part.as_str());
                proof {
                    assert(kids@.take(i + 1).drop_last() == kids@.take(i as int));
                }
                i = i + 1;
            }
            proof {
                assert(kids@.take(i as int) == kids@);
            }
            out
        }
    }
}

} // verus!
