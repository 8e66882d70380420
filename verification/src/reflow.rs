//! The respacing engine: recomputes the whitespace between the tokens
//! around an edit, and says which whitespace to insert, to delete or to
//! replace. It never touches a token that is not whitespace.

use vstd::prelude::*;
use vstd::string::*;
use ahash::AHashMap;
use crate::config::{config_entries, read_text_option, text_option, Value, ValueData};
use crate::fix::{
    edits_view, fixes_view, EditSegment, EditSegmentData, EditType, LintFix, LintFixData,
};
use crate::query::{first_index, index_in, ScopeError};
use crate::segment::{
    is_code_kind, is_comment_kind, is_meta_kind, is_whitespace_kind, comment_kind, leaves_of,
    meta_kind, whitespace_kind, SegmentArena, SegmentData,
};
use crate::apply::items_ok;
use crate::conflict::items_in_arena;
use crate::text::str_eq;

verus! {

/// On which sides of the target the sequence reaches out to the next
/// token.
#[derive(Debug, Clone, Copy, PartialEq, Eq, Structural)]
pub enum ReflowSide {
    Before,
    After,
    Both,
}

/// Which gaps a respacing looks at: all of them, only those that hold a
/// line break, or only those that hold none.
#[derive(Debug, Clone, Copy, PartialEq, Eq, Structural)]
pub enum Filter {
    All,
    Newline,
    Inline,
}

/// The spacing that two neighbouring tokens ask for: exactly one space,
/// no whitespace at all, or whatever is there.
#[derive(Debug, Clone, Copy, PartialEq, Eq, Structural)]
pub enum Spacing {
    Single,
    Touch,
    Any,
}

/// One leaf in a reflow sequence. A leaf that stands in the tree names
/// its segment; a staged leaf, which an edit is about to put there, names
/// none.
pub struct ReflowElement {
    pub segment: Option<usize>,
    pub kind: String,
    pub raw: String,
}

/// The content of a [`ReflowElement`].
pub struct ElementData {
    pub segment: Option<usize>,
    pub kind: Seq<char>,
    pub raw: Seq<char>,
}

impl View for ReflowElement {
    type V = ElementData;

    open spec fn view(&self) -> ElementData {
        ElementData { segment: self.segment, kind: self.kind@, raw: self.raw@ }
    }
}

/// The contents of a list of elements.
pub open spec fn elements_view(v: Seq<ReflowElement>) -> Seq<ElementData> {
    v.map_values(|e: ReflowElement| e@)
}

/// Whitespace, line breaks and structural markers fill the gaps between
/// tokens.
pub open spec fn is_gap_kind(kind: Seq<char>) -> bool {
    is_whitespace_kind(kind) || is_meta_kind(kind)
}

/// The name of the option that sets the spacing on one side of tokens
/// of type `kind`.
pub open spec fn spacing_key(kind: Seq<char>, before: bool) -> Seq<char> {
    "layout.type."@ + kind + (if before {
        ".spacing_before"@
    } else {
        ".spacing_after"@
    })
}

/// The spacing that a name stands for.
pub open spec fn spacing_named(name: Seq<char>) -> Option<Spacing> {
    if name == "single"@ {
        Some(Spacing::Single)
    } else if name == "touch"@ {
        Some(Spacing::Touch)
    } else if name == "any"@ {
        Some(Spacing::Any)
    } else {
        None
    }
}

/// The spacing that tokens of type `kind` ask for on one side where no
/// option says otherwise: punctuation that closes touches what is in
/// front of it, punctuation that opens touches what follows, and
/// everything else wants a single space.
pub open spec fn default_spacing(kind: Seq<char>, before: bool) -> Spacing {
    if kind == "dot"@ || kind == "casting_operator"@ {
        Spacing::Touch
    } else if before && (kind == "comma"@ || kind == "end_bracket"@ || kind
        == "statement_terminator"@) {
        Spacing::Touch
    } else if !before && kind == "start_bracket"@ {
        Spacing::Touch
    } else {
        Spacing::Single
    }
}

/// The spacing that tokens of type `kind` ask for on one side: what the
/// option for it says, if it names a spacing, else the default.
pub open spec fn spacing_side(
    entries: Map<Seq<char>, ValueData>,
    kind: Seq<char>,
    before: bool,
) -> Spacing {
    match text_option(entries, spacing_key(kind, before)) {
        Some(name) => match spacing_named(name) {
            Some(spacing) => spacing,
            None => default_spacing(kind, before),
        },
        None => default_spacing(kind, before),
    }
}

/// The spacing between a token of type `left` and the next token, of
/// type `right`: any next to a comment; none between the name of a
/// function and its bracket; else none if either token asks for none on
/// its side, any if either allows any, and a single space otherwise.
pub open spec fn spacing_between(
    entries: Map<Seq<char>, ValueData>,
    left: Seq<char>,
    right: Seq<char>,
) -> Spacing {
    let after = spacing_side(entries, left, false);
    let before = spacing_side(entries, right, true);
    if is_comment_kind(left) || is_comment_kind(right) {
        Spacing::Any
    } else if left == "function_name_identifier"@ && right == "start_bracket"@ {
        Spacing::Touch
    } else if after == Spacing::Touch || before == Spacing::Touch {
        Spacing::Touch
    } else if after == Spacing::Any || before == Spacing::Any {
        Spacing::Any
    } else {
        Spacing::Single
    }
}

/// Decides the spacing that tokens of type `kind` ask for on one side.
pub fn spacing_of(config: &AHashMap<String, Value>, kind: &str, before: bool) -> (out: Spacing)
    ensures
        out == spacing_side(config_entries(*config), kind@, before),
{
    let mut key = String::from_str("layout.type.");
    key.append(kind);
    if before {
        key.append(".spacing_before");
    } else {
        key.append(".spacing_after");
    }
    match read_text_option(config, key.as_str()) {
        Some(name) => {
            if str_eq(name, "single") {
                return Spacing::Single;
            } else if str_eq(name, "touch") {
                return Spacing::Touch;
            } else if str_eq(name, "any") {
                return Spacing::Any;
            }
        },
        None => {},
    }
    if str_eq(kind, "dot") || str_eq(kind, "casting_operator") {
        Spacing::Touch
    } else if before && (str_eq(kind, "comma") || str_eq(kind, "end_bracket") || str_eq(
        kind,
        "statement_terminator",
    )) {
        Spacing::Touch
    } else if !before && str_eq(kind, "start_bracket") {
        Spacing::Touch
    } else {
        Spacing::Single
    }
}

/// Decides the spacing between two neighbouring tokens.
pub fn spacing_policy(config: &AHashMap<String, Value>, left: &str, right: &str) -> (out: Spacing)
    ensures
        out == spacing_between(config_entries(*config), left@, right@),
{
    if comment_kind(left) || comment_kind(right) {
        return Spacing::Any;
    }
    if str_eq(left, "function_name_identifier") && str_eq(right, "start_bracket") {
        return Spacing::Touch;
    }
    let after = spacing_of(config, left, false);
    let before = spacing_of(config, right, true);
    if matches!(after, Spacing::Touch) || matches!(before, Spacing::Touch) {
        Spacing::Touch
    } else if matches!(after, Spacing::Any) || matches!(before, Spacing::Any) {
        Spacing::Any
    } else {
        Spacing::Single
    }
}

/// The leaf `k` of arena `a` as an element that stands in the tree, or
/// as a staged one.
pub open spec fn element_of(a: Seq<SegmentData>, k: usize, staged: bool) -> ElementData {
    ElementData {
        segment: if staged {
            None
        } else {
            Some(k)
        },
        kind: a[k as int].kind,
        raw: a[k as int].raw,
    }
}

/// The leaves `leaves` as elements.
pub open spec fn elements_of(a: Seq<SegmentData>, leaves: Seq<usize>, staged: bool) -> Seq<
    ElementData,
> {
    leaves.map_values(|k: usize| element_of(a, k, staged))
}

/// The place of the nearest code leaf at or before place `i`, or 0.
pub open spec fn back_to_code(a: Seq<SegmentData>, leaves: Seq<usize>, i: int) -> int
    decreases i,
{
    if i <= 0 || i >= leaves.len() {
        0
    } else if is_code_kind(a[leaves[i] as int].kind) {
        i
    } else {
        back_to_code(a, leaves, i - 1)
    }
}

/// The place just behind the nearest code leaf at or after place `j`,
/// or the end.
pub open spec fn on_to_code(a: Seq<SegmentData>, leaves: Seq<usize>, j: int) -> int
    decreases leaves.len() - j,
{
    if j < 0 || j >= leaves.len() {
        leaves.len() as int
    } else if is_code_kind(a[leaves[j] as int].kind) {
        j + 1
    } else {
        on_to_code(a, leaves, j + 1)
    }
}

/// The part of the leaves of the tree below `root` that a sequence
/// around `target` covers: from the first leaf of the target to its last
/// and, on each side asked for, on to the next code leaf. `None` when the
/// leaves of the target are not found in the tree, in this order.
pub open spec fn window_around(
    a: Seq<SegmentData>,
    root: usize,
    target: usize,
    side: ReflowSide,
) -> Option<(int, int)> {
    let leaves = leaves_of(a, root as int);
    let own = leaves_of(a, target as int);
    if own.len() == 0 {
        None
    } else {
        match (first_index(leaves, own.first()), first_index(leaves, own.last())) {
            (Some(first), Some(last)) => if first <= last {
                let lo = if side != ReflowSide::After && first > 0 {
                    back_to_code(a, leaves, first - 1)
                } else {
                    first
                };
                let hi = if side != ReflowSide::Before {
                    on_to_code(a, leaves, last + 1)
                } else {
                    last + 1
                };
                Some((lo, hi))
            } else {
                None
            },
            _ => None,
        }
    }
}

/// The elements of a sequence around `target`.
pub open spec fn elements_around(
    a: Seq<SegmentData>,
    root: usize,
    target: usize,
    side: ReflowSide,
) -> Option<Seq<ElementData>> {
    match window_around(a, root, target, side) {
        Some((lo, hi)) => Some(elements_of(a, leaves_of(a, root as int).subrange(lo, hi), false)),
        None => None,
    }
}

/// Every element that stands in the tree is a leaf of the arena with the
/// type and the text that the element shows.
pub open spec fn elements_wf(a: Seq<SegmentData>, elems: Seq<ElementData>) -> bool {
    forall|i: int|
        0 <= i < elems.len() ==> ((#[trigger] elems[i]).segment matches Some(k) ==> k < a.len()
            && a[k as int].children.len() == 0 && a[k as int].kind == elems[i].kind
            && a[k as int].raw == elems[i].raw)
}

/// A run of neighbouring leaves of a tree, with the edits staged on it.
pub struct ReflowSequence<'a> {
    pub arena: &'a SegmentArena,
    pub config: &'a AHashMap<String, Value>,
    pub root: usize,
    pub elements: Vec<ReflowElement>,
    pub fixes: Vec<LintFix>,
}

/// Appends the leaves `leaves[lo..hi]` as elements.
fn push_elements(
    arena: &SegmentArena,
    leaves: &Vec<usize>,
    lo: usize,
    hi: usize,
    staged: bool,
    out: &mut Vec<ReflowElement>,
)
    requires
        lo <= hi <= leaves@.len(),
        forall|j: int| 0 <= j < leaves@.len() ==> leaves@[j] < arena@.len(),
    ensures
        elements_view(final(out)@) == elements_view(old(out)@) + elements_of(
            arena@,
            leaves@.subrange(lo as int, hi as int),
            staged,
        ),
{
    let ghost before = elements_view(out@);
    let ghost wanted = elements_of(arena@, leaves@.subrange(lo as int, hi as int), staged);
    let mut i: usize = lo;
    proof {
        assert(before + wanted.take(0) =~= before);
    }
    while i < hi
        invariant
            lo <= i <= hi <= leaves@.len(),
            forall|j: int| 0 <= j < leaves@.len() ==> leaves@[j] < arena@.len(),
            wanted == elements_of(arena@, leaves@.subrange(lo as int, hi as int), staged),
            elements_view(out@) == before + wanted.take(i - lo),
        decreases hi - i,
    {
        let k = leaves[i];
        let e = ReflowElement {
            segment: if staged {
                None
            } else {
                Some(k)
            },
            kind: arena.kind(k).to_owned(),
            raw: arena.leaf_text(k).to_owned(),
        };
        let ghost prev = elements_view(out@);
        proof {
            assert(leaves@.subrange(lo as int, hi as int)[i - lo] == k);
            assert(e@ == wanted[i - lo]);
        }
        out.push(e);
        proof {
            assert(elements_view(out@) =~= prev.push(e@));
            assert(wanted.take(i - lo + 1) =~= wanted.take(i - lo).push(wanted[i - lo]));
            assert(elements_view(out@) =~= before + wanted.take(i - lo + 1));
        }
        i = i + 1;
    }
    proof {
        assert(wanted.take(i - lo) == wanted);
    }
}

impl<'a> ReflowSequence<'a> {
    /// The arena is well formed and the elements show what it holds.
    pub open spec fn wf(&self) -> bool {
        self.arena.wf() && self.root < self.arena@.len() && elements_wf(
            self.arena@,
            elements_view(self.elements@),
        )
    }

    /// The sequence of the leaves around `target` in the tree below
    /// `root`, with no edit staged. An error when the leaves of the
    /// target are not found in the tree.
    pub fn from_around_target(
        arena: &'a SegmentArena,
        target: usize,
        root: usize,
        side: ReflowSide,
        config: &'a AHashMap<String, Value>,
    ) -> (out: Result<ReflowSequence<'a>, ScopeError>)
        requires
            arena.wf(),
            root < arena@.len(),
            target < arena@.len(),
        ensures
            match out {
                Ok(seq) => seq.wf() && seq.arena == arena && seq.config == config && seq.root
                    == root && elements_around(arena@, root, target, side) == Some(
                    elements_view(seq.elements@),
                ) && seq.fixes@.len() == 0,
                Err(e) => elements_around(arena@, root, target, side) is None && e.segment
                    == target,
            },
    {
        let ghost a = arena@;
        proof {
            arena.lemma_len_fits();
        }
        let leaves = arena.get_raw_segments(root);
        let own = arena.get_raw_segments(target);
        if own.len() == 0 {
            return Err(ScopeError { segment: target });
        }
        let first = match index_in(&leaves, own[0]) {
            Some(i) => i,
            None => {
                return Err(ScopeError { segment: target });
            },
        };
        let last = match index_in(&leaves, own[own.len() - 1]) {
            Some(i) => i,
            None => {
                return Err(ScopeError { segment: target });
            },
        };
        if first > last {
            return Err(ScopeError { segment: target });
        }
        let mut lo = first;
        if !matches!(side, ReflowSide::After) && first > 0 {
            lo = first - 1;
            while lo > 0 && !arena.is_code(leaves[lo])
                invariant
                    arena.wf(),
                    a == arena@,
                    forall|j: int| 0 <= j < leaves@.len() ==> leaves@[j] <= root,
                    root < a.len(),
                    0 <= lo < first < leaves@.len(),
                    back_to_code(a, leaves@, first - 1) == back_to_code(a, leaves@, lo as int),
                decreases lo,
            {
                lo = lo - 1;
            }
        }
        let total = leaves.len();
        let mut hi = last + 1;
        if !matches!(side, ReflowSide::Before) {
            let mut found = false;
            while hi < total && !found
                invariant
                    arena.wf(),
                    a == arena@,
                    forall|j: int| 0 <= j < leaves@.len() ==> leaves@[j] <= root,
                    root < a.len(),
                    total == leaves@.len(),
                    last < hi <= leaves@.len(),
                    !found ==> on_to_code(
                        a,
                        leaves@,
                        last + 1,
                    ) == on_to_code(a, leaves@, hi as int),
                    found ==> on_to_code(a, leaves@, last + 1) == hi,
                decreases leaves@.len() - hi + (if found { 0int } else { 1int }),
            {
                if arena.is_code(leaves[hi]) {
                    found = true;
                }
                hi = hi + 1;
            }
        }
        let mut elements: Vec<ReflowElement> = Vec::new();
        proof {
            assert(elements_view(elements@) =~= Seq::<ElementData>::empty());
        }
        push_elements(arena, &leaves, lo, hi, false, &mut elements);
        proof {
            let shown = elements_of(a, leaves@.subrange(lo as int, hi as int), false);
            assert(elements_view(elements@) =~= shown);
            assert forall|i: int| 0 <= i < shown.len() implies ((#[trigger] shown[i]).segment matches Some(
                k,
            ) ==> k < a.len() && a[k as int].children.len() == 0 && a[k as int].kind
                == shown[i].kind && a[k as int].raw == shown[i].raw) by {
                let k = leaves@.subrange(lo as int, hi as int)[i];
                assert(k == leaves@[lo + i]);
                crate::segment::lemma_leaves_are_leaves(a, root as int, lo + i);
            }
        }
        Ok(ReflowSequence { arena, config, root, elements, fixes: Vec::new() })
    }
}

/// Place `i` is the first place of leaf `k` among the elements.
pub open spec fn is_first_element(elems: Seq<ElementData>, k: usize, i: int) -> bool {
    0 <= i < elems.len() && elems[i].segment == Some(k) && forall|j: int|
        0 <= j < i ==> elems[j].segment != Some(k)
}

/// The first place of leaf `k` among the elements that stand in the
/// tree.
pub open spec fn element_index(elems: Seq<ElementData>, k: usize) -> Option<int> {
    if exists|i: int| is_first_element(elems, k, i) {
        Some(choose|i: int| is_first_element(elems, k, i))
    } else {
        None
    }
}

/// A first place is the first place.
pub proof fn lemma_element_index(elems: Seq<ElementData>, k: usize, i: int)
    requires
        is_first_element(elems, k, i),
    ensures
        element_index(elems, k) == Some(i),
{
    let c = choose|c: int| is_first_element(elems, k, c);
    assert(is_first_element(elems, k, c));
    if c < i {
        assert(elems[c].segment != Some(k));
    }
    if i < c {
        assert(elems[i].segment != Some(k));
    }
}

/// The leaves that the edit segments `edit` bring, as staged elements.
pub open spec fn staged_items(a: Seq<SegmentData>, edit: Seq<EditSegmentData>) -> Seq<ElementData>
    decreases edit.len(),
{
    if edit.len() == 0 {
        Seq::empty()
    } else {
        staged_items(a, edit.drop_last()) + (match edit.last() {
            EditSegmentData::New { kind, raw } => seq![ElementData { segment: None, kind, raw }],
            EditSegmentData::Existing(id) => elements_of(a, leaves_of(a, id as int), true),
        })
    }
}

/// The elements after segment `old` has been replaced by `edit`: the
/// leaves of `old` give way to the staged leaves of `edit`. `None` when
/// the leaves of `old` are not among the elements, or when `edit` takes a
/// segment that the arena does not hold.
pub open spec fn replaced(
    a: Seq<SegmentData>,
    elems: Seq<ElementData>,
    old: usize,
    edit: Seq<EditSegmentData>,
) -> Option<Seq<ElementData>> {
    let own = leaves_of(a, old as int);
    if own.len() == 0 || !items_ok(a.len(), edit) {
        None
    } else {
        match (element_index(elems, own.first()), element_index(elems, own.last())) {
            (Some(i), Some(j)) => if i <= j {
                Some(elems.take(i) + staged_items(a, edit) + elems.skip(j + 1))
            } else {
                None
            },
            _ => None,
        }
    }
}

/// Whether element `e` is whitespace that a respacing may remove.
pub open spec fn removable(strip_newlines: bool) -> spec_fn(ElementData) -> bool {
    |e: ElementData| e.kind == "whitespace"@ || (strip_newlines && e.kind == "newline"@)
}

/// A single space, as a new segment.
pub open spec fn one_space() -> Seq<EditSegmentData> {
    seq![EditSegmentData::New { kind: "whitespace"@, raw: " "@ }]
}

/// The edits that delete the elements `rem`, which stand in the tree.
pub open spec fn deletions(rem: Seq<ElementData>) -> Seq<LintFixData> {
    rem.map_values(
        |e: ElementData|
            LintFixData {
                edit_type: EditType::Delete,
                anchor: e.segment.unwrap(),
                edit: Seq::empty(),
            },
    )
}

/// The edit that turns whitespace `e` into a single space, if it is not
/// one already.
pub open spec fn normalized(e: ElementData) -> Seq<LintFixData> {
    if e.kind == "whitespace"@ && e.raw == " "@ {
        Seq::empty()
    } else {
        seq![
            LintFixData {
                edit_type: EditType::Replace,
                anchor: e.segment.unwrap(),
                edit: one_space(),
            },
        ]
    }
}

/// The edit that puts a single space between two tokens that touch:
/// behind the left one if it stands in the tree, else in front of the
/// right one if that stands in the tree.
pub open spec fn insertion(left: ElementData, right: ElementData) -> Seq<LintFixData> {
    match left.segment {
        Some(k) => seq![
            LintFixData { edit_type: EditType::CreateAfter, anchor: k, edit: one_space() },
        ],
        None => match right.segment {
            Some(k) => seq![
                LintFixData { edit_type: EditType::CreateBefore, anchor: k, edit: one_space() },
            ],
            None => Seq::empty(),
        },
    }
}

/// Some element of the gap is staged.
pub open spec fn gap_staged(gap: Seq<ElementData>) -> bool {
    exists|k: int| 0 <= k < gap.len() && (#[trigger] gap[k]).segment is None
}

/// Some element of the gap is a line break.
pub open spec fn gap_breaks(gap: Seq<ElementData>) -> bool {
    exists|k: int| 0 <= k < gap.len() && (#[trigger] gap[k]).kind == "newline"@
}

/// Whether the respacing leaves the gap as it is, whatever the spacing
/// asked for: a gap with a staged element, a gap with a line break that
/// is not to be stripped, and a gap that the filter leaves out.
pub open spec fn gap_skipped(gap: Seq<ElementData>, strip_newlines: bool, filter: Filter) -> bool {
    gap_staged(gap) || (gap_breaks(gap) && !strip_newlines) || (filter == Filter::Newline
        && !gap_breaks(gap)) || (filter == Filter::Inline && gap_breaks(gap))
}

/// The edits on the gap between the tokens at places `l` and `r`: none
/// if the gap is skipped or any spacing will do; the removal of all its
/// whitespace if the tokens are to touch; and if a single space is asked
/// for, the first whitespace made a single space and the rest removed,
/// or a space inserted where there is no whitespace.
pub open spec fn gap_fixes(
    entries: Map<Seq<char>, ValueData>,
    elems: Seq<ElementData>,
    l: int,
    r: int,
    strip_newlines: bool,
    filter: Filter,
) -> Seq<LintFixData> {
    let gap = elems.subrange(l + 1, r);
    if gap_skipped(gap, strip_newlines, filter) {
        Seq::empty()
    } else {
        let rem = gap.filter(removable(strip_newlines));
        match spacing_between(entries, elems[l].kind, elems[r].kind) {
            Spacing::Any => Seq::empty(),
            Spacing::Touch => deletions(rem),
            Spacing::Single => if rem.len() == 0 {
                insertion(elems[l], elems[r])
            } else {
                normalized(rem[0]) + deletions(rem.skip(1))
            },
        }
    }
}

/// The edits of a respacing from place `i` on, where `left` is the place
/// of the last token before `i`, or -1: the edits on each gap between two
/// neighbouring tokens, from left to right.
pub open spec fn respace_from(
    entries: Map<Seq<char>, ValueData>,
    elems: Seq<ElementData>,
    left: int,
    i: int,
    strip_newlines: bool,
    filter: Filter,
) -> Seq<LintFixData>
    decreases elems.len() - i,
{
    if i < 0 || i >= elems.len() {
        Seq::empty()
    } else if is_gap_kind(elems[i].kind) {
        respace_from(entries, elems, left, i + 1, strip_newlines, filter)
    } else if 0 <= left < i {
        gap_fixes(entries, elems, left, i, strip_newlines, filter) + respace_from(
            entries,
            elems,
            i,
            i + 1,
            strip_newlines,
            filter,
        )
    } else {
        respace_from(entries, elems, i, i + 1, strip_newlines, filter)
    }
}

/// The edits of a respacing of the whole sequence.
pub open spec fn respace_fixes(
    entries: Map<Seq<char>, ValueData>,
    elems: Seq<ElementData>,
    strip_newlines: bool,
    filter: Filter,
) -> Seq<LintFixData> {
    respace_from(entries, elems, -1, 0, strip_newlines, filter)
}

/// Every item is a new whitespace segment.
pub open spec fn whitespace_items(items: Seq<EditSegmentData>) -> bool {
    forall|i: int|
        0 <= i < items.len() ==> (#[trigger] items[i] matches EditSegmentData::New { kind, .. }
            && is_whitespace_kind(kind))
}

/// The edit touches nothing but whitespace: what it creates is
/// whitespace, and what it deletes or replaces is a whitespace leaf.
pub open spec fn whitespace_edit(a: Seq<SegmentData>, f: LintFixData) -> bool {
    whitespace_items(f.edit) && ((f.edit_type == EditType::Delete || f.edit_type
        == EditType::Replace) ==> f.anchor < a.len() && a[f.anchor as int].children.len() == 0
        && is_whitespace_kind(a[f.anchor as int].kind))
}

/// Every edit from place `from` on touches nothing but whitespace.
pub open spec fn whitespace_only_from(
    a: Seq<SegmentData>,
    fixes: Seq<LintFixData>,
    from: int,
) -> bool {
    forall|i: int| from <= i < fixes.len() ==> whitespace_edit(a, #[trigger] fixes[i])
}

/// Finds the first place of leaf `k` among the elements.
fn find_element(elements: &Vec<ReflowElement>, k: usize) -> (out: Option<usize>)
    ensures
        match out {
            Some(i) => i < usize::MAX && is_first_element(elements_view(elements@), k, i as int)
                && element_index(elements_view(elements@), k) == Some(i as int),
            None => element_index(elements_view(elements@), k) is None,
        },
{
    let ghost elems = elements_view(elements@);
    let mut i: usize = 0;
    while i < elements.len()
        invariant
            elems == elements_view(elements@),
            0 <= i <= elements@.len(),
            forall|j: int| 0 <= j < i ==> elems[j].segment != Some(k),
        decreases elements@.len() - i,
    {
        assert(elems[i as int] == elements@[i as int]@);
        match elements[i].segment {
            Some(s) => {
                if s == k {
                    proof {
                        lemma_element_index(elems, k, i as int);
                    }
                    return Some(i);
                }
            },
            None => {},
        }
        i = i + 1;
    }
    proof {
        assert forall|c: int| !is_first_element(elems, k, c) by {}
    }
    None
}

/// Appends the leaves that `edit` brings, as staged elements.
fn stage(arena: &SegmentArena, edit: &Vec<EditSegment>, out: &mut Vec<ReflowElement>)
    requires
        arena.wf(),
        items_ok(arena@.len(), edits_view(edit@)),
    ensures
        elements_view(final(out)@) == elements_view(old(out)@) + staged_items(
            arena@,
            edits_view(edit@),
        ),
{
    let ghost a = arena@;
    let ghost before = elements_view(out@);
    let ghost view = edits_view(edit@);
    let mut i: usize = 0;
    proof {
        assert(before + Seq::<ElementData>::empty() =~= before);
    }
    while i < edit.len()
        invariant
            arena.wf(),
            a == arena@,
            view == edits_view(edit@),
            items_ok(a.len(), view),
            0 <= i <= edit@.len(),
            elements_view(out@) == before + staged_items(a, view.take(i as int)),
        decreases edit@.len() - i,
    {
        let ghost sofar = staged_items(a, view.take(i as int));
        let ghost prev = elements_view(out@);
        proof {
            assert(view.take(i + 1).drop_last() == view.take(i as int));
            assert(view.take(i + 1).last() == edit@[i as int]@);
            assert(view[i as int] == edit@[i as int]@);
        }
        match &edit[i] {
            EditSegment::New { kind, raw } => {
                let e = ReflowElement { segment: None, kind: kind.clone(), raw: raw.clone() };
                out.push(e);
                proof {
                    assert(elements_view(out@) =~= prev.push(e@));
                    assert(elements_view(out@) =~= before + (sofar + seq![e@]));
                }
            },
            EditSegment::Existing(id) => {
                let leaves = arena.get_raw_segments(*id);
                let n = leaves.len();
                proof {
                    assert(leaves@.subrange(0, n as int) == leaves@);
                }
                push_elements(arena, &leaves, 0, n, true, out);
                proof {
                    assert(elements_view(out@) =~= before + (sofar + elements_of(
                        a,
                        leaves@,
                        true,
                    )));
                }
            },
        }
        i = i + 1;
    }
    proof {
        assert(view.take(i as int) == view);
    }
}

impl<'a> ReflowSequence<'a> {
    /// Stages the replacement of segment `old` by `edit`: the leaves of
    /// `old` give way to those of `edit`, and the edit joins the fixes.
    pub fn replace(self, old: usize, edit: Vec<EditSegment>) -> (out: Result<
        ReflowSequence<'a>,
        ScopeError,
    >)
        requires
            self.wf(),
            old < self.arena@.len(),
        ensures
            match out {
                Ok(seq) => seq.wf() && seq.arena == self.arena && seq.config == self.config
                    && seq.root == self.root && replaced(
                    self.arena@,
                    elements_view(self.elements@),
                    old,
                    edits_view(edit@),
                ) == Some(elements_view(seq.elements@)) && fixes_view(seq.fixes@) == fixes_view(
                    self.fixes@,
                ).push(
                    LintFixData {
                        edit_type: EditType::Replace,
                        anchor: old,
                        edit: edits_view(edit@),
                    },
                ),
                Err(e) => replaced(
                    self.arena@,
                    elements_view(self.elements@),
                    old,
                    edits_view(edit@),
                ) is None && e.segment == old,
            },
    {
        let ReflowSequence { arena, config, root, elements, fixes } = self;
        let ghost a = arena@;
        let ghost elems = elements_view(elements@);
        let ghost fixes0 = fixes_view(fixes@);
        let own = arena.get_raw_segments(old);
        if own.len() == 0 || !items_in_arena(arena, &edit) {
            return Err(ScopeError { segment: old });
        }
        let i = match find_element(&elements, own[0]) {
            Some(i) => i,
            None => {
                return Err(ScopeError { segment: old });
            },
        };
        let j = match find_element(&elements, own[own.len() - 1]) {
            Some(j) => j,
            None => {
                return Err(ScopeError { segment: old });
            },
        };
        if i > j {
            return Err(ScopeError { segment: old });
        }
        let mut elements = elements;
        let mut fixes = fixes;
        let mut tail = elements.split_off(j + 1);
        elements.truncate(i);
        let ghost head = elements_view(elements@);
        let ghost rest = elements_view(tail@);
        proof {
            assert(head =~= elems.take(i as int));
            assert(rest =~= elems.skip(j + 1));
        }
        stage(arena, &edit, &mut elements);
        let ghost mid = elements_view(elements@);
        elements.append(&mut tail);
        let fix = LintFix::replace(old, edit);
        fixes.push(fix);
        proof {
            let staged = staged_items(a, edits_view(edit@));
            assert(elements_view(elements@) =~= mid + rest);
            assert(elements_view(elements@) =~= elems.take(i as int) + staged + elems.skip(j + 1));
            assert(fixes_view(fixes@) =~= fixes0.push(fix@));
            lemma_staged_are_staged(a, edits_view(edit@));
            assert forall|x: int| 0 <= x < elements_view(elements@).len() implies ((
            #[trigger] elements_view(elements@)[x]).segment matches Some(k) ==> k < a.len()
                && a[k as int].children.len() == 0 && a[k as int].kind == elements_view(
                elements@,
            )[x].kind && a[k as int].raw == elements_view(elements@)[x].raw) by {
                let all = elements_view(elements@);
                if x < i {
                    assert(all[x] == elems[x]);
                } else if x < i + staged.len() {
                    assert(all[x] == staged[x - i]);
                } else {
                    assert(all[x] == elems[x - staged.len() - i + j + 1]);
                }
            }
        }
        Ok(ReflowSequence { arena, config, root, elements, fixes })
    }

    /// The edits staged so far.
    pub fn fixes(self) -> (out: Vec<LintFix>)
        ensures
            out == self.fixes,
    {
        self.fixes
    }
}

/// No staged element names a segment.
pub proof fn lemma_staged_are_staged(a: Seq<SegmentData>, edit: Seq<EditSegmentData>)
    ensures
        forall|i: int|
            0 <= i < staged_items(a, edit).len() ==> (#[trigger] staged_items(
                a,
                edit,
            )[i]).segment is None,
    decreases edit.len(),
{
    if edit.len() > 0 {
        lemma_staged_are_staged(a, edit.drop_last());
    }
}

/// A staged element among the first `m + 1` is among the first `m` or
/// is the last of them.
proof fn lemma_gap_staged_step(gap: Seq<ElementData>, m: int)
    requires
        0 <= m < gap.len(),
    ensures
        gap_staged(gap.take(m + 1)) <==> gap_staged(gap.take(m)) || gap[m].segment is None,
{
    if gap_staged(gap.take(m + 1)) {
        let k = choose|k: int|
            0 <= k < gap.take(m + 1).len() && (#[trigger] gap.take(m + 1)[k]).segment is None;
        if k < m {
            assert(gap.take(m)[k].segment is None);
        }
    }
    if gap_staged(gap.take(m)) {
        let k = choose|k: int| 0 <= k < gap.take(m).len() && (#[trigger] gap.take(m)[k]).segment
            is None;
        assert(gap.take(m + 1)[k].segment is None);
    }
    if gap[m].segment is None {
        assert(gap.take(m + 1)[m].segment is None);
    }
}

/// A line break among the first `m + 1` is among the first `m` or is
/// the last of them.
proof fn lemma_gap_breaks_step(gap: Seq<ElementData>, m: int)
    requires
        0 <= m < gap.len(),
    ensures
        gap_breaks(gap.take(m + 1)) <==> gap_breaks(gap.take(m)) || gap[m].kind == "newline"@,
{
    if gap_breaks(gap.take(m + 1)) {
        let k = choose|k: int|
            0 <= k < gap.take(m + 1).len() && (#[trigger] gap.take(m + 1)[k]).kind == "newline"@;
        if k < m {
            assert(gap.take(m)[k].kind == "newline"@);
        }
    }
    if gap_breaks(gap.take(m)) {
        let k = choose|k: int| 0 <= k < gap.take(m).len() && (#[trigger] gap.take(m)[k]).kind
            == "newline"@;
        assert(gap.take(m + 1)[k].kind == "newline"@);
    }
    if gap[m].kind == "newline"@ {
        assert(gap.take(m + 1)[m].kind == "newline"@);
    }
}

/// A single space, as a new segment.
fn space_edit() -> (out: Vec<EditSegment>)
    ensures
        edits_view(out@) == one_space(),
{
    let mut out: Vec<EditSegment> = Vec::new();
    out.push(EditSegment::whitespace(" "));
    proof {
        assert(edits_view(out@) =~= one_space());
    }
    out
}

/// Whether the gap between the tokens at `l` and `r` is left as it is.
fn gap_is_skipped(
    elements: &Vec<ReflowElement>,
    l: usize,
    r: usize,
    strip_newlines: bool,
    filter: Filter,
) -> (out: bool)
    requires
        l < r < elements@.len(),
    ensures
        out == gap_skipped(
            elements_view(elements@).subrange(l + 1, r as int),
            strip_newlines,
            filter,
        ),
{
    let ghost elems = elements_view(elements@);
    let ghost gap = elems.subrange(l + 1, r as int);
    let mut staged = false;
    let mut breaks = false;
    let mut k: usize = l + 1;
    while k < r
        invariant
            l < k <= r < elements@.len(),
            elems == elements_view(elements@),
            gap == elems.subrange(l + 1, r as int),
            staged == gap_staged(gap.take(k - l - 1)),
            breaks == gap_breaks(gap.take(k - l - 1)),
        decreases r - k,
    {
        proof {
            assert(gap[k - l - 1] == elements@[k as int]@);
            lemma_gap_staged_step(gap, k - l - 1);
            lemma_gap_breaks_step(gap, k - l - 1);
        }
        if elements[k].segment.is_none() {
            staged = true;
        }
        if str_eq(elements[k].kind.as_str(), "newline") {
            breaks = true;
        }
        k = k + 1;
    }
    proof {
        assert(gap.take(k - l - 1) == gap);
    }
    staged || (breaks && !strip_newlines) || (matches!(filter, Filter::Newline) && !breaks) || (
    matches!(filter, Filter::Inline) && breaks)
}

/// Adds the edits on the gap between the tokens at `l` and `r`.
fn fix_gap(
    arena: &SegmentArena,
    config: &AHashMap<String, Value>,
    elements: &Vec<ReflowElement>,
    l: usize,
    r: usize,
    strip_newlines: bool,
    filter: Filter,
    fixes: &mut Vec<LintFix>,
)
    requires
        l < r < elements@.len(),
        elements_wf(arena@, elements_view(elements@)),
    ensures
        fixes_view(final(fixes)@) == fixes_view(old(fixes)@) + gap_fixes(
            config_entries(*config),
            elements_view(elements@),
            l as int,
            r as int,
            strip_newlines,
            filter,
        ),
        whitespace_only_from(arena@, fixes_view(final(fixes)@), old(fixes)@.len() as int),
{
    let ghost a = arena@;
    let ghost entries = config_entries(*config);
    let ghost elems = elements_view(elements@);
    let ghost gap = elems.subrange(l + 1, r as int);
    let ghost base = fixes_view(fixes@);
    let ghost pick = removable(strip_newlines);
    proof {
        assert(base + Seq::<LintFixData>::empty() =~= base);
        assert(elems[l as int] == elements@[l as int]@);
        assert(elems[r as int] == elements@[r as int]@);
    }
    if gap_is_skipped(elements, l, r, strip_newlines, filter) {
        return ;
    }
    let policy = spacing_policy(config, elements[l].kind.as_str(), elements[r].kind.as_str());
    if matches!(policy, Spacing::Any) {
        return ;
    }
    let single = matches!(policy, Spacing::Single);
    let mut seen = false;
    let mut k: usize = l + 1;
    proof {
        reveal(Seq::filter);
        assert(gap.take(0).filter(pick) =~= Seq::<ElementData>::empty());
        assert(deletions(Seq::<ElementData>::empty()) =~= Seq::<LintFixData>::empty());
    }
    while k < r
        invariant
            l < k <= r < elements@.len(),
            a == arena@,
            elems == elements_view(elements@),
            elements_wf(a, elems),
            gap == elems.subrange(l + 1, r as int),
            !gap_staged(gap),
            pick == removable(strip_newlines),
            base.len() == old(fixes)@.len(),
            seen == (gap.take(k - l - 1).filter(pick).len() > 0),
            fixes_view(fixes@) == base + ({
                let rem = gap.take(k - l - 1).filter(pick);
                if !single {
                    deletions(rem)
                } else if rem.len() == 0 {
                    Seq::empty()
                } else {
                    normalized(rem[0]) + deletions(rem.skip(1))
                }
            }),
            whitespace_only_from(a, fixes_view(fixes@), base.len() as int),
        decreases r - k,
    {
        let e = &elements[k];
        let ghost m = k - l - 1;
        let ghost rem = gap.take(m).filter(pick);
        let ghost prev = fixes_view(fixes@);
        proof {
            reveal(Seq::filter);
            assert(gap[m] == e@);
            assert(elems[k as int] == e@);
            assert(gap.take(m + 1).drop_last() == gap.take(m));
            assert(gap.take(m + 1).last() == e@);
        }
        let is_space = str_eq(e.kind.as_str(), "whitespace");
        let is_break = str_eq(e.kind.as_str(), "newline");
        if is_space || (strip_newlines && is_break) {
            let ghost rem2 = rem.push(e@);
            proof {
                assert(gap.take(m + 1).filter(pick) == rem2);
                assert(e@.segment is Some) by {
                    if e@.segment is None {
                        assert(gap[m].segment is None);
                    }
                }
            }
            let anchor = match e.segment {
                Some(s) => s,
                None => 0,
            };
            if single && !seen {
                if !(is_space && str_eq(e.raw.as_str(), " ")) {
                    let fix = LintFix::replace(anchor, space_edit());
                    fixes.push(fix);
                    proof {
                        assert(fixes_view(fixes@) =~= prev.push(fix@));
                        assert(whitespace_edit(a, fix@));
                    }
                }
                proof {
                    assert(rem2[0] == e@);
                    assert(rem2.skip(1) =~= Seq::<ElementData>::empty());
                    assert(deletions(rem2.skip(1)) =~= Seq::<LintFixData>::empty());
                    assert(fixes_view(fixes@) =~= base + (normalized(rem2[0]) + deletions(
                        rem2.skip(1),
                    )));
                }
            } else {
                let fix = LintFix::delete(anchor);
                fixes.push(fix);
                proof {
                    assert(fixes_view(fixes@) =~= prev.push(fix@));
                    assert(whitespace_edit(a, fix@));
                    assert(deletions(rem2) =~= deletions(rem).push(fix@));
                    if single {
                        assert(rem2[0] == rem[0]);
                        assert(rem2.skip(1) =~= rem.skip(1).push(e@));
                        assert(deletions(rem2.skip(1)) =~= deletions(rem.skip(1)).push(fix@));
                        assert(fixes_view(fixes@) =~= base + (normalized(rem2[0]) + deletions(
                            rem2.skip(1),
                        )));
                    } else {
                        assert(fixes_view(fixes@) =~= base + deletions(rem2));
                    }
                }
            }
            seen = true;
        } else {
            proof {
                assert(gap.take(m + 1).filter(pick) == rem);
            }
        }
        k = k + 1;
    }
    proof {
        assert(gap.take(k - l - 1) == gap);
    }
    if single && !seen {
        let ghost prev = fixes_view(fixes@);
        match elements[l].segment {
            Some(s) => {
                let fix = LintFix::create_after(s, space_edit());
                fixes.push(fix);
                proof {
                    assert(fixes_view(fixes@) =~= prev.push(fix@));
                    assert(whitespace_edit(a, fix@));
                    assert(fixes_view(fixes@) =~= base + insertion(
                        elems[l as int],
                        elems[r as int],
                    ));
                }
            },
            None => {
                match elements[r].segment {
                    Some(s) => {
                        let fix = LintFix::create_before(s, space_edit());
                        fixes.push(fix);
                        proof {
                            assert(fixes_view(fixes@) =~= prev.push(fix@));
                            assert(whitespace_edit(a, fix@));
                            assert(fixes_view(fixes@) =~= base + insertion(
                                elems[l as int],
                                elems[r as int],
                            ));
                        }
                    },
                    None => {},
                }
            },
        }
    }
}

impl<'a> ReflowSequence<'a> {
    /// Respaces the sequence: adds, for each gap between two neighbouring
    /// tokens, the edits that give it the spacing the tokens ask for.
    /// Every edit added touches nothing but whitespace.
    pub fn respace(self, strip_newlines: bool, filter: Filter) -> (out: ReflowSequence<'a>)
        requires
            self.wf(),
        ensures
            out.wf(),
            out.arena == self.arena,
            out.root == self.root,
            out.elements == self.elements,
            out.config == self.config,
            fixes_view(out.fixes@) == fixes_view(self.fixes@) + respace_fixes(
                config_entries(*self.config),
                elements_view(self.elements@),
                strip_newlines,
                filter,
            ),
            whitespace_only_from(self.arena@, fixes_view(out.fixes@), self.fixes@.len() as int),
    {
        let ReflowSequence { arena, config, root, elements, fixes } = self;
        let ghost a = arena@;
        let ghost entries = config_entries(*config);
        let ghost elems = elements_view(elements@);
        let ghost fixes0 = fixes_view(fixes@);
        let mut fixes = fixes;
        let mut left: Option<usize> = None;
        let mut i: usize = 0;
        while i < elements.len()
            invariant
                a == arena@,
                entries == config_entries(*config),
                elems == elements_view(elements@),
                elements_wf(a, elems),
                0 <= i <= elements@.len(),
                left matches Some(l) ==> l < i,
                fixes0.len() <= fixes@.len(),
                fixes0 + respace_fixes(entries, elems, strip_newlines, filter) == fixes_view(fixes@)
                    + respace_from(
                    entries,
                    elems,
                    match left {
                        Some(l) => l as int,
                        None => -1,
                    },
                    i as int,
                    strip_newlines,
                    filter,
                ),
                whitespace_only_from(a, fixes_view(fixes@), fixes0.len() as int),
            decreases elements@.len() - i,
        {
            let kind = elements[i].kind.as_str();
            proof {
                assert(elems[i as int] == elements@[i as int]@);
            }
            if !(whitespace_kind(kind) || meta_kind(kind)) {
                let ghost prev = fixes_view(fixes@);
                match left {
                    Some(l) => {
                        fix_gap(arena, config, &elements, l, i, strip_newlines, filter, &mut fixes);
                        proof {
                            let g = gap_fixes(
                                entries,
                                elems,
                                l as int,
                                i as int,
                                strip_newlines,
                                filter,
                            );
                            let rest = respace_from(
                                entries,
                                elems,
                                i as int,
                                i + 1,
                                strip_newlines,
                                filter,
                            );
                            assert(prev + (g + rest) =~= (prev + g) + rest);
                        }
                    },
                    None => {},
                }
                left = Some(i);
            }
            i = i + 1;
        }
        proof {
            assert(fixes_view(fixes@) + Seq::<LintFixData>::empty() =~= fixes_view(fixes@));
            assert(fixes0.len() == self.fixes@.len());
        }
        ReflowSequence { arena, config, root, elements, fixes }
    }
}

/// Every edit on a gap touches nothing but whitespace.
pub proof fn lemma_gap_fixes_whitespace(
    a: Seq<SegmentData>,
    entries: Map<Seq<char>, ValueData>,
    elems: Seq<ElementData>,
    l: int,
    r: int,
    strip_newlines: bool,
    filter: Filter,
)
    requires
        elements_wf(a, elems),
        0 <= l < r < elems.len(),
    ensures
        forall|i: int|
            0 <= i < gap_fixes(
                entries,
                elems,
                l,
                r,
                strip_newlines,
                filter,
            ).len() ==> whitespace_edit(
                a,
                #[trigger] gap_fixes(entries, elems, l, r, strip_newlines, filter)[i],
            ),
{
    let gap = elems.subrange(l + 1, r);
    let fixes = gap_fixes(entries, elems, l, r, strip_newlines, filter);
    if !gap_skipped(gap, strip_newlines, filter) {
        let pick = removable(strip_newlines);
        let rem = gap.filter(pick);
        // What may go is a whitespace leaf of the arena.
        assert forall|i: int| 0 <= i < rem.len() implies (#[trigger] rem[i]).segment is Some
            && rem[i].segment.unwrap() < a.len() && a[rem[i].segment.unwrap() as int].children.len()
            == 0 && is_whitespace_kind(a[rem[i].segment.unwrap() as int].kind) by {
            gap.lemma_filter_pred(pick, i);
            assert(rem.contains(rem[i]));
            gap.lemma_filter_contains_rev(pick, rem[i]);
            let j = choose|j: int| 0 <= j < gap.len() && gap[j] == rem[i];
            assert(gap[j] == elems[l + 1 + j]);
            if gap[j].segment is None {
                assert(gap_staged(gap));
            }
        }
        assert(whitespace_items(one_space()));
        assert(whitespace_items(Seq::<EditSegmentData>::empty()));
        match spacing_between(entries, elems[l].kind, elems[r].kind) {
            Spacing::Any => {},
            Spacing::Touch => {
                assert forall|i: int| 0 <= i < fixes.len() implies whitespace_edit(
                    a,
                    #[trigger] fixes[i],
                ) by {
                    assert(fixes[i].anchor == rem[i].segment.unwrap());
                }
            },
            Spacing::Single => {
                if rem.len() > 0 {
                    let head = normalized(rem[0]);
                    let tail = deletions(rem.skip(1));
                    assert forall|i: int| 0 <= i < fixes.len() implies whitespace_edit(
                        a,
                        #[trigger] fixes[i],
                    ) by {
                        if i < head.len() {
                            assert(fixes[i] == head[i]);
                            assert(fixes[i].anchor == rem[0].segment.unwrap());
                        } else {
                            assert(fixes[i] == tail[i - head.len()]);
                            assert(rem.skip(1)[i - head.len()] == rem[i - head.len() + 1]);
                        }
                    }
                }
            },
        }
    }
}

/// Every edit of a respacing touches nothing but whitespace.
pub proof fn lemma_respace_whitespace(
    a: Seq<SegmentData>,
    entries: Map<Seq<char>, ValueData>,
    elems: Seq<ElementData>,
    left: int,
    i: int,
    strip_newlines: bool,
    filter: Filter,
)
    requires
        elements_wf(a, elems),
        0 <= i,
    ensures
        forall|j: int|
            0 <= j < respace_from(entries, elems, left, i, strip_newlines, filter).len()
                ==> whitespace_edit(
                a,
                #[trigger] respace_from(entries, elems, left, i, strip_newlines, filter)[j],
            ),
    decreases elems.len() - i,
{
    let all = respace_from(entries, elems, left, i, strip_newlines, filter);
    if i < elems.len() {
        if is_gap_kind(elems[i].kind) {
            lemma_respace_whitespace(a, entries, elems, left, i + 1, strip_newlines, filter);
            assert(all == respace_from(entries, elems, left, i + 1, strip_newlines, filter));
        } else {
            lemma_respace_whitespace(a, entries, elems, i, i + 1, strip_newlines, filter);
            if !(0 <= left < i) {
                assert(all == respace_from(entries, elems, i, i + 1, strip_newlines, filter));
            }
            if 0 <= left < i {
                lemma_gap_fixes_whitespace(a, entries, elems, left, i, strip_newlines, filter);
                let head = gap_fixes(entries, elems, left, i, strip_newlines, filter);
                let tail = respace_from(entries, elems, i, i + 1, strip_newlines, filter);
                assert(all == head + tail);
                assert forall|j: int| 0 <= j < all.len() implies whitespace_edit(
                    a,
                    #[trigger] all[j],
                ) by {
                    if j < head.len() {
                        assert(all[j] == head[j]);
                    } else {
                        assert(all[j] == tail[j - head.len()]);
                    }
                }
            }
        }
    }
}

} // verus!
