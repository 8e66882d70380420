//! The fix model: the edits that a rule proposes, and the violations that
//! carry them.

use vstd::prelude::*;
use vstd::string::*;

verus! {

/// The kind of an edit.
#[derive(Debug, Clone, Copy, PartialEq, Eq, Structural)]
pub enum EditType {
    Delete,
    Replace,
    CreateBefore,
    CreateAfter,
}

/// A segment that an edit puts into the tree: one that the arena holds
/// already, with everything below it, or a new leaf.
pub enum EditSegment {
    Existing(usize),
    New { kind: String, raw: String },
}

/// The content of an [`EditSegment`].
pub enum EditSegmentData {
    Existing(usize),
    New { kind: Seq<char>, raw: Seq<char> },
}

impl View for EditSegment {
    type V = EditSegmentData;

    open spec fn view(&self) -> EditSegmentData {
        match self {
            EditSegment::Existing(id) => EditSegmentData::Existing(*id),
            EditSegment::New { kind, raw } => EditSegmentData::New { kind: kind@, raw: raw@ },
        }
    }
}

/// The contents of a list of edit segments.
pub open spec fn edits_view(v: Seq<EditSegment>) -> Seq<EditSegmentData> {
    v.map_values(|e: EditSegment| e@)
}

impl EditSegment {
    /// A new leaf of type `kind` with text `raw`.
    pub fn new_leaf(kind: &str, raw: &str) -> (out: EditSegment)
        ensures
            out@ == (EditSegmentData::New { kind: kind@, raw: raw@ }),
    {
        EditSegment::New { kind: kind.to_owned(), raw: raw.to_owned() }
    }

    /// A keyword with text `raw`.
    pub fn keyword(raw: &str) -> (out: EditSegment)
        ensures
            out@ == (EditSegmentData::New { kind: "keyword"@, raw: raw@ }),
    {
        EditSegment::new_leaf("keyword", raw)
    }

    /// Whitespace with text `raw`.
    pub fn whitespace(raw: &str) -> (out: EditSegment)
        ensures
            out@ == (EditSegmentData::New { kind: "whitespace"@, raw: raw@ }),
    {
        EditSegment::new_leaf("whitespace", raw)
    }

    /// A line break.
    pub fn newline() -> (out: EditSegment)
        ensures
            out@ == (EditSegmentData::New { kind: "newline"@, raw: "\n"@ }),
    {
        EditSegment::new_leaf("newline", "\n")
    }

    /// A copy with the same content.
    pub fn duplicate(&self) -> (out: EditSegment)
        ensures
            out@ == self@,
    {
        match self {
            EditSegment::Existing(id) => EditSegment::Existing(*id),
            EditSegment::New { kind, raw } => EditSegment::New {
                kind: kind.clone(),
                raw: raw.clone(),
            },
        }
    }
}

/// Copies a list of edit segments.
pub fn duplicate_edits(edit: &Vec<EditSegment>) -> (out: Vec<EditSegment>)
    ensures
        edits_view(out@) == edits_view(edit@),
{
    let mut out: Vec<EditSegment> = Vec::new();
    let mut i: usize = 0;
    while i < edit.len()
        invariant
            0 <= i <= edit@.len(),
            out@.len() == i,
            forall|k: int| 0 <= k < i ==> (#[trigger] out@[k])@ == edit@[k]@,
        decreases edit@.len() - i,
    {
        out.push(edit[i].duplicate());
        i = i + 1;
    }
    proof {
        assert(edits_view(out@) =~= edits_view(edit@));
    }
    out
}

/// One edit: what to do, and at which segment.
pub struct LintFix {
    pub edit_type: EditType,
    pub anchor: usize,
    pub edit: Vec<EditSegment>,
}

/// The content of a [`LintFix`].
pub struct LintFixData {
    pub edit_type: EditType,
    pub anchor: usize,
    pub edit: Seq<EditSegmentData>,
}

impl View for LintFix {
    type V = LintFixData;

    open spec fn view(&self) -> LintFixData {
        LintFixData { edit_type: self.edit_type, anchor: self.anchor, edit: edits_view(self.edit@) }
    }
}

/// The contents of a list of fixes.
pub open spec fn fixes_view(v: Seq<LintFix>) -> Seq<LintFixData> {
    v.map_values(|f: LintFix| f@)
}

impl LintFix {
    /// The edit that removes `anchor` from its parent.
    pub fn delete(anchor: usize) -> (fix: LintFix)
        ensures
            fix@ == (LintFixData { edit_type: EditType::Delete, anchor, edit: Seq::empty() }),
    {
        let fix = LintFix { edit_type: EditType::Delete, anchor, edit: Vec::new() };
        assert(fix@.edit =~= Seq::empty());
        fix
    }

    /// The edit that puts `edit` in the place of `anchor`.
    pub fn replace(anchor: usize, edit: Vec<EditSegment>) -> (fix: LintFix)
        ensures
            fix@ == (LintFixData {
                edit_type: EditType::Replace,
                anchor,
                edit: edits_view(edit@),
            }),
    {
        LintFix { edit_type: EditType::Replace, anchor, edit }
    }

    /// The edit that puts `edit` just in front of `anchor`.
    pub fn create_before(anchor: usize, edit: Vec<EditSegment>) -> (fix: LintFix)
        ensures
            fix@ == (LintFixData {
                edit_type: EditType::CreateBefore,
                anchor,
                edit: edits_view(edit@),
            }),
    {
        LintFix { edit_type: EditType::CreateBefore, anchor, edit }
    }

    /// The edit that puts `edit` just behind `anchor`.
    pub fn create_after(anchor: usize, edit: Vec<EditSegment>) -> (fix: LintFix)
        ensures
            fix@ == (LintFixData {
                edit_type: EditType::CreateAfter,
                anchor,
                edit: edits_view(edit@),
            }),
    {
        LintFix { edit_type: EditType::CreateAfter, anchor, edit }
    }

    /// A copy with the same content.
    pub fn duplicate(&self) -> (out: LintFix)
        ensures
            out@ == self@,
    {
        LintFix {
            edit_type: self.edit_type,
            anchor: self.anchor,
            edit: duplicate_edits(&self.edit),
        }
    }
}

/// A violation: the segment it is reported at, the edits that would
/// resolve it, a message, and further segments that give context.
pub struct LintResult {
    pub anchor: usize,
    pub fixes: Vec<LintFix>,
    pub description: Option<String>,
    pub context: Vec<usize>,
}

/// The content of a [`LintResult`].
pub struct LintResultData {
    pub anchor: usize,
    pub fixes: Seq<LintFixData>,
    pub description: Option<Seq<char>>,
    pub context: Seq<usize>,
}

/// The content of an optional text.
pub open spec fn text_view(t: Option<String>) -> Option<Seq<char>> {
    match t {
        Some(s) => Some(s@),
        None => None,
    }
}

impl View for LintResult {
    type V = LintResultData;

    open spec fn view(&self) -> LintResultData {
        LintResultData {
            anchor: self.anchor,
            fixes: fixes_view(self.fixes@),
            description: text_view(self.description),
            context: self.context@,
        }
    }
}

/// The contents of a list of violations.
pub open spec fn results_view(v: Seq<LintResult>) -> Seq<LintResultData> {
    v.map_values(|r: LintResult| r@)
}

impl LintResult {
    /// A violation at `anchor` with the fixes that would resolve it.
    pub fn new(
        anchor: usize,
        fixes: Vec<LintFix>,
        description: Option<String>,
        context: Vec<usize>,
    ) -> (out: LintResult)
        ensures
            out@ == (LintResultData {
                anchor,
                fixes: fixes_view(fixes@),
                description: text_view(description),
                context: context@,
            }),
    {
        LintResult { anchor, fixes, description, context }
    }
}

/// The edit that removes `anchor`.
pub open spec fn deletion(anchor: usize) -> LintFixData {
    LintFixData { edit_type: EditType::Delete, anchor, edit: Seq::empty() }
}

/// Segments of the arena as edit segments.
pub open spec fn as_existing(ids: Seq<usize>) -> Seq<EditSegmentData> {
    ids.map_values(|k: usize| EditSegmentData::Existing(k))
}

/// Segments of the arena as edit segments.
pub fn existing_edit(ids: &Vec<usize>) -> (out: Vec<EditSegment>)
    ensures
        edits_view(out@) == as_existing(ids@),
{
    let mut out: Vec<EditSegment> = Vec::new();
    let mut i: usize = 0;
    while i < ids.len()
        invariant
            0 <= i <= ids@.len(),
            out@.len() == i,
            forall|k: int| 0 <= k < i ==> (#[trigger] out@[k])@ == EditSegmentData::Existing(ids@[k]),
        decreases ids@.len() - i,
    {
        out.push(EditSegment::Existing(ids[i]));
        i = i + 1;
    }
    proof {
        assert(edits_view(out@) =~= as_existing(ids@));
    }
    out
}

} // verus!
