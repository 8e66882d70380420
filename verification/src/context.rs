//! The rule context: what a rule sees of the tree when it is invoked on
//! one segment.

use vstd::prelude::*;
use ahash::AHashMap;
use crate::config::Value;
use crate::position::PositionMarker;
use crate::query::{all_below, Segments};
use crate::segment::{copy_range, SegmentArena, SegmentData};

verus! {

/// The bundle that a rule is evaluated on: the segment, the stack of its
/// ancestors with the root first, its place among the children of its
/// parent, where its text begins, the dialect and the configuration.
pub struct RuleContext<'a> {
    pub arena: &'a SegmentArena,
    pub dialect: &'a str,
    pub config: &'a AHashMap<String, Value>,
    pub segment: usize,
    pub parent_stack: Vec<usize>,
    pub segment_idx: usize,
    pub position: PositionMarker,
}

/// The part of a [`RuleContext`] that differs from one crawl target to
/// the next.
pub struct ContextData {
    pub segment: usize,
    pub parent_stack: Seq<usize>,
    pub segment_idx: usize,
    pub position: PositionMarker,
}

impl<'a> View for RuleContext<'a> {
    type V = ContextData;

    open spec fn view(&self) -> ContextData {
        ContextData {
            segment: self.segment,
            parent_stack: self.parent_stack@,
            segment_idx: self.segment_idx,
            position: self.position,
        }
    }
}

/// `stack` leads from a root down to the parent of `segment`, each entry
/// a child of the one before, and `segment` is child number `idx` of the
/// last. With an empty stack `segment` is the root and `idx` is 0.
pub open spec fn is_path(
    a: Seq<SegmentData>,
    stack: Seq<usize>,
    segment: usize,
    idx: usize,
) -> bool {
    &&& segment < a.len()
    &&& all_below(stack, a.len())
    &&& forall|i: int|
        0 <= i < stack.len() - 1 ==> a[stack[i] as int].children.contains(#[trigger] stack[i + 1])
    &&& if stack.len() > 0 {
        idx < a[stack.last() as int].children.len() && a[stack.last() as int].children[idx as int]
            == segment
    } else {
        idx == 0
    }
}

/// The segments in front of child `idx` of the last entry of `stack`.
pub open spec fn siblings_before(a: Seq<SegmentData>, stack: Seq<usize>, idx: usize) -> Seq<usize> {
    if stack.len() > 0 {
        a[stack.last() as int].children.take(idx as int)
    } else {
        Seq::empty()
    }
}

/// The segments behind child `idx` of the last entry of `stack`.
pub open spec fn siblings_after(a: Seq<SegmentData>, stack: Seq<usize>, idx: usize) -> Seq<usize> {
    if stack.len() > 0 {
        a[stack.last() as int].children.skip(idx + 1)
    } else {
        Seq::empty()
    }
}

impl<'a> RuleContext<'a> {
    /// The arena is well formed and the stack is a path to the segment.
    pub open spec fn wf(&self) -> bool {
        self.arena.wf() && is_path(
            self.arena@,
            self.parent_stack@,
            self.segment,
            self.segment_idx,
        )
    }

    /// The segment under evaluation, as a selection of one.
    pub fn segment(&self) -> (out: Segments<'a>)
        requires
            self.wf(),
        ensures
            out.wf(),
            out.arena == self.arena,
            out@ == seq![self.segment],
    {
        Segments::from_segment(self.arena, self.segment)
    }

    /// The children of the segment under evaluation, in order.
    pub fn children(&self) -> (out: Segments<'a>)
        requires
            self.wf(),
        ensures
            out.wf(),
            out.arena == self.arena,
            out@ == self.arena@[self.segment as int].children,
    {
        proof {
            crate::query::lemma_children_of_one(self.arena@, self.segment);
            crate::query::lemma_filter_none(self.arena@[self.segment as int].children, self.arena@);
        }
        self.segment().children(None)
    }

    /// The ancestors of the segment, the root first.
    pub fn parent_stack(&self) -> (out: Segments<'a>)
        requires
            self.wf(),
        ensures
            out.wf(),
            out.arena == self.arena,
            out@ == self.parent_stack@,
    {
        let items = copy_range(&self.parent_stack, 0, self.parent_stack.len());
        proof {
            assert(self.parent_stack@.subrange(0, self.parent_stack@.len() as int)
                == self.parent_stack@);
        }
        Segments::new(self.arena, items)
    }

    /// The parent of the segment, if it has one.
    pub fn parent(&self) -> (out: Option<usize>)
        ensures
            out == (if self.parent_stack@.len() > 0 {
                Some(self.parent_stack@.last())
            } else {
                None
            }),
    {
        if self.parent_stack.len() > 0 {
            Some(self.parent_stack[self.parent_stack.len() - 1])
        } else {
            None
        }
    }

    /// The siblings in front of the segment, in order.
    pub fn siblings_pre(&self) -> (out: Segments<'a>)
        requires
            self.wf(),
        ensures
            out.wf(),
            out.arena == self.arena,
            out@ == siblings_before(self.arena@, self.parent_stack@, self.segment_idx),
    {
        match self.parent() {
            Some(p) => {
                let kids = self.arena.children(p);
                let items = copy_range(kids, 0, self.segment_idx);
                Segments::new(self.arena, items)
            },
            None => Segments::new(self.arena, Vec::new()),
        }
    }

    /// The siblings behind the segment, in order.
    pub fn siblings_post(&self) -> (out: Segments<'a>)
        requires
            self.wf(),
        ensures
            out.wf(),
            out.arena == self.arena,
            out@ == siblings_after(self.arena@, self.parent_stack@, self.segment_idx),
    {
        match self.parent() {
            Some(p) => {
                let kids = self.arena.children(p);
                let n = kids.len();
                let items = copy_range(kids, self.segment_idx + 1, n);
                Segments::new(self.arena, items)
            },
            None => Segments::new(self.arena, Vec::new()),
        }
    }
}

} // verus!
