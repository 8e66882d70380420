//! Position markers: where in the text of a tree a segment begins.

use vstd::prelude::*;
use crate::segment::{text_of, text_of_all, SegmentArena, SegmentData};
use crate::text::chars_of;

verus! {

/// A place in a text: how many characters precede it, and its line and
/// its column, both counted from one. A counter that reaches the largest
/// `usize` stays there.
#[derive(Debug, Clone, Copy, PartialEq, Eq, Structural)]
pub struct PositionMarker {
    pub offset: usize,
    pub line_no: usize,
    pub line_pos: usize,
}

/// One more than `n`, unless `n` is the largest `usize`.
pub open spec fn bump(n: usize) -> usize {
    if n < usize::MAX {
        (n + 1) as usize
    } else {
        n
    }
}

/// The place just behind character `c`, read at place `p`.
pub open spec fn step(p: PositionMarker, c: char) -> PositionMarker {
    if c == '\n' {
        PositionMarker { offset: bump(p.offset), line_no: bump(p.line_no), line_pos: 1 }
    } else {
        PositionMarker { offset: bump(p.offset), line_no: p.line_no, line_pos: bump(p.line_pos) }
    }
}

/// The place just behind the text `s`, read from place `p` on.
pub open spec fn advance(p: PositionMarker, s: Seq<char>) -> PositionMarker
    decreases s.len(),
{
    if s.len() == 0 {
        p
    } else {
        step(advance(p, s.drop_last()), s.last())
    }
}

/// Reading two texts in turn is reading them joined.
pub proof fn lemma_advance_concat(p: PositionMarker, s: Seq<char>, t: Seq<char>)
    ensures
        advance(advance(p, s), t) == advance(p, s + t),
    decreases t.len(),
{
    if t.len() == 0 {
        assert(s + t =~= s);
    } else {
        lemma_advance_concat(p, s, t.drop_last());
        assert((s + t).drop_last() =~= s + t.drop_last());
        assert((s + t).last() == t.last());
    }
}

/// Of two places, one comes before the other or they are at the same
/// offset.
pub proof fn lemma_places_are_ordered(p: PositionMarker, q: PositionMarker)
    ensures
        p.precedes(q) || q.precedes(p) || p.offset == q.offset,
        !(p.precedes(q) && q.precedes(p)),
{
}

/// Places never move backwards: reading on does not lower the offset or
/// the line.
pub proof fn lemma_advance_monotonic(p: PositionMarker, s: Seq<char>)
    ensures
        p.offset <= advance(p, s).offset,
        p.line_no <= advance(p, s).line_no,
    decreases s.len(),
{
    if s.len() > 0 {
        lemma_advance_monotonic(p, s.drop_last());
    }
}

/// Where segment `x` first begins in the tree below segment `id`, which
/// begins at `pos`; `None` when `x` is not in that tree.
pub open spec fn position_in(a: Seq<SegmentData>, id: int, x: usize, pos: PositionMarker) -> Option<
    PositionMarker,
>
    decreases id, 1int, 0int,
{
    if 0 <= id < a.len() {
        if id == x {
            Some(pos)
        } else {
            position_among(a, a[id].children, 0, id, x, pos)
        }
    } else {
        None
    }
}

/// Where segment `x` first begins in the trees below the children `kids`
/// from child `i` on, the first of which begins at `pos`.
pub open spec fn position_among(
    a: Seq<SegmentData>,
    kids: Seq<usize>,
    i: int,
    bound: int,
    x: usize,
    pos: PositionMarker,
) -> Option<PositionMarker>
    decreases bound, 0int, kids.len() - i,
{
    if i < 0 || i >= kids.len() {
        None
    } else if kids[i] < bound {
        match position_in(a, kids[i] as int, x, pos) {
            Some(p) => Some(p),
            None => position_among(
                a,
                kids,
                i + 1,
                bound,
                x,
                advance(pos, text_of(a, kids[i] as int)),
            ),
        }
    } else {
        position_among(a, kids, i + 1, bound, x, pos)
    }
}

impl PositionMarker {
    /// Where segment `x` first begins in the tree below segment `id`,
    /// which begins at this place.
    pub fn locate(self, arena: &SegmentArena, id: usize, x: usize) -> (out: Option<PositionMarker>)
        requires
            arena.wf(),
            id < arena@.len(),
        ensures
            out == position_in(arena@, id as int, x, self),
        decreases id,
    {
        if id == x {
            return Some(self);
        }
        let kids = arena.children(id);
        let mut p = self;
        let mut i: usize = 0;
        while i < kids.len()
            invariant
                arena.wf(),
                id < arena@.len(),
                kids@ == arena@[id as int].children,
                forall|j: int| 0 <= j < kids@.len() ==> kids@[j] < id,
                0 <= i <= kids@.len(),
                id != x,
                position_among(arena@, kids@, 0, id as int, x, self) == position_among(
                    arena@,
                    kids@,
                    i as int,
                    id as int,
                    x,
                    p,
                ),
            decreases kids@.len() - i,
        {
            assert(kids@[i as int] < id);
            match p.locate(arena, kids[i], x) {
                Some(found) => {
                    assert(position_among(arena@, kids@, i as int, id as int, x, p) == Some(found));
                    return Some(found);
                },
                None => {
                    assert(position_among(arena@, kids@, i as int, id as int, x, p)
                        == position_among(
                        arena@,
                        kids@,
                        i + 1,
                        id as int,
                        x,
                        advance(p, text_of(arena@, kids@[i as int] as int)),
                    ));
                },
            }
            p = p.after_segment(arena, kids[i]);
            i = i + 1;
        }
        None
    }

    /// This place comes before `other` in the text.
    pub open spec fn precedes(self, other: PositionMarker) -> bool {
        self.offset < other.offset
    }

    /// Whether this place comes before `other` in the text.
    pub fn is_before(&self, other: &PositionMarker) -> (yes: bool)
        ensures
            yes == self.precedes(*other),
    {
        self.offset < other.offset
    }

    /// Whether this place and `other` are on one line.
    pub fn same_line(&self, other: &PositionMarker) -> (yes: bool)
        ensures
            yes == (self.line_no == other.line_no),
    {
        self.line_no == other.line_no
    }

    /// The place where every text begins.
    pub open spec fn origin_spec() -> PositionMarker {
        PositionMarker { offset: 0, line_no: 1, line_pos: 1 }
    }

    pub fn origin() -> (p: PositionMarker)
        ensures
            p == Self::origin_spec(),
    {
        PositionMarker { offset: 0, line_no: 1, line_pos: 1 }
    }

    /// The place just behind character `c`.
    pub fn after_char(self, c: char) -> (p: PositionMarker)
        ensures
            p == step(self, c),
    {
        let offset = if self.offset < usize::MAX {
            self.offset + 1
        } else {
            self.offset
        };
        if c == '\n' {
            let line_no = if self.line_no < usize::MAX {
                self.line_no + 1
            } else {
                self.line_no
            };
            PositionMarker { offset, line_no, line_pos: 1 }
        } else {
            let line_pos = if self.line_pos < usize::MAX {
                self.line_pos + 1
            } else {
                self.line_pos
            };
            PositionMarker { offset, line_no: self.line_no, line_pos }
        }
    }

    /// The place just behind `text`.
    pub fn after_text(self, text: &str) -> (p: PositionMarker)
        ensures
            p == advance(self, text@),
    {
        let chars = chars_of(text);
        let mut p = self;
        let mut i: usize = 0;
        while i < chars.len()
            invariant
                0 <= i <= chars@.len(),
                chars@ == text@,
                p == advance(self, chars@.take(i as int)),
            decreases chars@.len() - i,
        {
            proof {
                assert(chars@.take(i + 1).drop_last() == chars@.take(i as int));
            }
            p = p.after_char(chars[i]);
            i = i + 1;
        }
        proof {
            assert(chars@.take(i as int) == chars@);
        }
        p
    }

    /// The place just behind segment `id`, which begins at this place.
    pub fn after_segment(self, arena: &SegmentArena, id: usize) -> (p: PositionMarker)
        requires
            arena.wf(),
            id < arena@.len(),
        ensures
            p == advance(self, text_of(arena@, id as int)),
        decreases id,
    {
        let kids = arena.children(id);
        if kids.len() == 0 {
            self.after_text(arena.leaf_text(id))
        } else {
            let mut p = self;
            let mut i: usize = 0;
            while i < kids.len()
                invariant
                    arena.wf(),
                    id < arena@.len(),
                    kids@ == arena@[id as int].children,
                    forall|j: int| 0 <= j < kids@.len() ==> kids@[j] < id,
                    0 <= i <= kids@.len(),
                    p == advance(self, text_of_all(arena@, kids@.take(i as int), id as int)),
                decreases kids@.len() - i,
            {
                proof {
                    assert(kids@.take(i + 1).drop_last() == kids@.take(i as int));
                    lemma_advance_concat(
                        self,
                        text_of_all(arena@, kids@.take(i as int), id as int),
                        text_of(arena@, kids@[i as int] as int),
                    );
                }
                p = p.after_segment(arena, kids[i]);
                i = i + 1;
            }
            proof {
                assert(kids@.take(i as int) == kids@);
            }
            p
        }
    }
}

} // verus!
