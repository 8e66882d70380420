//! The functional query interface: predicates over segments and ordered
//! selections of segments, by which rules pick children and siblings
//! without loops of their own.

use vstd::prelude::*;
use vstd::string::*;
use crate::segment::{
    is_code_kind, is_comment_kind, is_meta_kind, is_whitespace_kind, code_kind, comment_kind,
    meta_kind, whitespace_kind, text_of, SegmentArena, SegmentData,
};
use crate::text::{lowercase_of, str_eq, to_lowercase};

verus! {

/// A test on one segment.
pub enum SegmentPredicate {
    /// The type tag is the given one.
    IsType(String),
    /// The segment is a keyword whose text, in lower case, is the given one.
    IsKeyword(String),
    IsCode,
    IsMeta,
    IsWhitespace,
    IsComment,
    Not(Box<SegmentPredicate>),
    And(Box<SegmentPredicate>, Box<SegmentPredicate>),
    Or(Box<SegmentPredicate>, Box<SegmentPredicate>),
}

/// The content of a [`SegmentPredicate`].
pub enum PredicateData {
    IsType(Seq<char>),
    IsKeyword(Seq<char>),
    IsCode,
    IsMeta,
    IsWhitespace,
    IsComment,
    Not(Box<PredicateData>),
    And(Box<PredicateData>, Box<PredicateData>),
    Or(Box<PredicateData>, Box<PredicateData>),
}

impl PredicateData {
    /// Whether the predicate holds of segment `id` of arena `a`. No
    /// predicate holds of a slot outside the arena.
    pub open spec fn holds(self, a: Seq<SegmentData>, id: usize) -> bool
        decreases self,
    {
        if id < a.len() {
            match self {
                PredicateData::IsType(t) => a[id as int].kind == t,
                PredicateData::IsKeyword(word) => a[id as int].kind == "keyword"@ && lowercase_of(
                    text_of(a, id as int),
                ) == word,
                PredicateData::IsCode => is_code_kind(a[id as int].kind),
                PredicateData::IsMeta => is_meta_kind(a[id as int].kind),
                PredicateData::IsWhitespace => is_whitespace_kind(a[id as int].kind),
                PredicateData::IsComment => is_comment_kind(a[id as int].kind),
                PredicateData::Not(p) => !p.holds(a, id),
                PredicateData::And(p, q) => p.holds(a, id) && q.holds(a, id),
                PredicateData::Or(p, q) => p.holds(a, id) || q.holds(a, id),
            }
        } else {
            false
        }
    }
}

impl View for SegmentPredicate {
    type V = PredicateData;

    open spec fn view(&self) -> PredicateData {
        self.data()
    }
}

impl SegmentPredicate {
    /// The content of the predicate.
    pub open spec fn data(&self) -> PredicateData
        decreases self,
    {
        match self {
            SegmentPredicate::IsType(t) => PredicateData::IsType(t@),
            SegmentPredicate::IsKeyword(word) => PredicateData::IsKeyword(word@),
            SegmentPredicate::IsCode => PredicateData::IsCode,
            SegmentPredicate::IsMeta => PredicateData::IsMeta,
            SegmentPredicate::IsWhitespace => PredicateData::IsWhitespace,
            SegmentPredicate::IsComment => PredicateData::IsComment,
            SegmentPredicate::Not(p) => PredicateData::Not(Box::new(p.data())),
            SegmentPredicate::And(p, q) => PredicateData::And(
                Box::new(p.data()),
                Box::new(q.data()),
            ),
            SegmentPredicate::Or(p, q) => PredicateData::Or(Box::new(p.data()), Box::new(q.data())),
        }
    }

    /// Decides the predicate on segment `id`.
    pub fn test(&self, arena: &SegmentArena, id: usize) -> (yes: bool)
        requires
            arena.wf(),
            id < arena@.len(),
        ensures
            yes == self@.holds(arena@, id),
        decreases self,
    {
        match self {
            SegmentPredicate::IsType(t) => str_eq(arena.kind(id), t.as_str()),
            SegmentPredicate::IsKeyword(word) => {
                if str_eq(arena.kind(id), "keyword") {
                    let raw = arena.raw_of(id);
                    let lower = to_lowercase(raw.as_str());
                    str_eq(lower.as_str(), word.as_str())
                } else {
                    false
                }
            },
            SegmentPredicate::IsCode => code_kind(arena.kind(id)),
            SegmentPredicate::IsMeta => meta_kind(arena.kind(id)),
            SegmentPredicate::IsWhitespace => whitespace_kind(arena.kind(id)),
            SegmentPredicate::IsComment => comment_kind(arena.kind(id)),
            SegmentPredicate::Not(p) => !p.test(arena, id),
            SegmentPredicate::And(p, q) => p.test(arena, id) && q.test(arena, id),
            SegmentPredicate::Or(p, q) => p.test(arena, id) || q.test(arena, id),
        }
    }
}

/// The predicate that holds of segments of type `kind`.
pub fn is_type(kind: &str) -> (p: SegmentPredicate)
    ensures
        p@ == PredicateData::IsType(kind@),
{
    SegmentPredicate::IsType(kind.to_owned())
}

/// The predicate that holds of the keyword `word`, written in any case.
pub fn is_keyword(word: &str) -> (p: SegmentPredicate)
    ensures
        p@ == PredicateData::IsKeyword(word@),
{
    SegmentPredicate::IsKeyword(word.to_owned())
}

/// The predicate that holds of code.
pub fn is_code() -> (p: SegmentPredicate)
    ensures
        p@ == PredicateData::IsCode,
{
    SegmentPredicate::IsCode
}

/// The predicate that holds of structural markers.
pub fn is_meta() -> (p: SegmentPredicate)
    ensures
        p@ == PredicateData::IsMeta,
{
    SegmentPredicate::IsMeta
}

/// The predicate that holds of whitespace and line breaks.
pub fn is_whitespace() -> (p: SegmentPredicate)
    ensures
        p@ == PredicateData::IsWhitespace,
{
    SegmentPredicate::IsWhitespace
}

/// The predicate that holds of comments.
pub fn is_comment() -> (p: SegmentPredicate)
    ensures
        p@ == PredicateData::IsComment,
{
    SegmentPredicate::IsComment
}

/// The predicate that holds where `p` does not.
pub fn not(p: SegmentPredicate) -> (r: SegmentPredicate)
    ensures
        r@ == PredicateData::Not(Box::new(p@)),
{
    SegmentPredicate::Not(Box::new(p))
}

/// The predicate that holds where both `p` and `q` hold.
pub fn and(p: SegmentPredicate, q: SegmentPredicate) -> (r: SegmentPredicate)
    ensures
        r@ == PredicateData::And(Box::new(p@), Box::new(q@)),
{
    SegmentPredicate::And(Box::new(p), Box::new(q))
}

/// The predicate that holds where `p` or `q` holds.
pub fn or(p: SegmentPredicate, q: SegmentPredicate) -> (r: SegmentPredicate)
    ensures
        r@ == PredicateData::Or(Box::new(p@), Box::new(q@)),
{
    SegmentPredicate::Or(Box::new(p), Box::new(q))
}

/// The content of an optional predicate.
pub open spec fn pred_view(p: Option<&SegmentPredicate>) -> Option<PredicateData> {
    match p {
        Some(q) => Some(q@),
        None => None,
    }
}

/// An absent predicate holds of every segment.
pub open spec fn holds_opt(p: Option<PredicateData>, a: Seq<SegmentData>, id: usize) -> bool {
    match p {
        Some(q) => q.holds(a, id),
        None => true,
    }
}

/// The predicate as a function on slots.
pub open spec fn test_of(p: Option<PredicateData>, a: Seq<SegmentData>) -> spec_fn(usize) -> bool {
    |id: usize| holds_opt(p, a, id)
}

/// The segments of type `kind` among `items`, in order.
pub open spec fn of_type(items: Seq<usize>, a: Seq<SegmentData>, kind: Seq<char>) -> Seq<usize> {
    items.filter(test_of(Some(PredicateData::IsType(kind)), a))
}

/// The children of a single segment are its children.
pub proof fn lemma_children_of_one(a: Seq<SegmentData>, id: usize)
    requires
        id < a.len(),
    ensures
        children_of_all(a, seq![id]) == a[id as int].children,
{
    assert(seq![id].drop_last() =~= Seq::<usize>::empty());
    assert(children_of_all(a, Seq::<usize>::empty()) =~= Seq::<usize>::empty());
    assert(Seq::<usize>::empty() + a[id as int].children =~= a[id as int].children);
}

/// An absent predicate filters nothing out.
pub proof fn lemma_filter_none(s: Seq<usize>, a: Seq<SegmentData>)
    ensures
        s.filter(test_of(None, a)) == s,
    decreases s.len(),
{
    reveal(Seq::filter);
    if s.len() > 0 {
        lemma_filter_none(s.drop_last(), a);
        assert(s.drop_last().push(s.last()) =~= s);
    }
}

/// The length of the longest prefix of `s` on which `p` holds throughout.
pub open spec fn run_len(s: Seq<usize>, p: spec_fn(usize) -> bool) -> int
    decreases s.len(),
{
    if s.len() == 0 || !p(s[0]) {
        0
    } else {
        1 + run_len(s.drop_first(), p)
    }
}

/// A prefix on which `p` holds and which `p` ends is the longest one.
pub proof fn lemma_run_len(s: Seq<usize>, p: spec_fn(usize) -> bool, n: int)
    requires
        0 <= n <= s.len(),
        forall|i: int| 0 <= i < n ==> p(#[trigger] s[i]),
        n == s.len() || !p(s[n]),
    ensures
        run_len(s, p) == n,
    decreases s.len(),
{
    if n > 0 {
        assert(p(s[0]));
        assert forall|i: int| 0 <= i < n - 1 implies p(#[trigger] s.drop_first()[i]) by {
            assert(s.drop_first()[i] == s[i + 1]);
        }
        lemma_run_len(s.drop_first(), p, n - 1);
    }
}

/// Slot `i` is the first place of `x` in `s`.
pub open spec fn is_first_index(s: Seq<usize>, x: usize, i: int) -> bool {
    0 <= i < s.len() && s[i] == x && forall|j: int| 0 <= j < i ==> s[j] != x
}

/// The first place of `x` in `s`, if it occurs.
pub open spec fn first_index(s: Seq<usize>, x: usize) -> Option<int> {
    if s.contains(x) {
        Some(choose|i: int| is_first_index(s, x, i))
    } else {
        None
    }
}

/// A first place is the first place.
pub proof fn lemma_first_index(s: Seq<usize>, x: usize, i: int)
    requires
        is_first_index(s, x, i),
    ensures
        first_index(s, x) == Some(i),
{
    assert(s.contains(x));
    let k = choose|k: int| is_first_index(s, x, k);
    assert(is_first_index(s, x, k));
    if k < i {
        assert(s[k] != x);
    }
    if i < k {
        assert(s[i] != x);
    }
}

/// The first element of `s` as a sequence of one, or the empty sequence.
pub open spec fn head_of(s: Seq<usize>) -> Seq<usize> {
    if s.len() > 0 {
        seq![s[0]]
    } else {
        Seq::empty()
    }
}

/// The first place of `x` among `ids`.
pub fn index_in(ids: &Vec<usize>, x: usize) -> (out: Option<usize>)
    ensures
        match out {
            Some(i) => i < usize::MAX && is_first_index(ids@, x, i as int) && first_index(ids@, x)
                == Some(i as int),
            None => first_index(ids@, x) is None,
        },
{
    let mut i: usize = 0;
    while i < ids.len()
        invariant
            0 <= i <= ids@.len(),
            forall|j: int| 0 <= j < i ==> ids@[j] != x,
        decreases ids@.len() - i,
    {
        if ids[i] == x {
            proof {
                lemma_first_index(ids@, x, i as int);
            }
            return Some(i);
        }
        i = i + 1;
    }
    None
}

/// The children of the segments `ids`, in order.
pub open spec fn children_of_all(a: Seq<SegmentData>, ids: Seq<usize>) -> Seq<usize>
    decreases ids.len(),
{
    if ids.len() == 0 {
        Seq::empty()
    } else {
        children_of_all(a, ids.drop_last()) + (if ids.last() < a.len() {
            a[ids.last() as int].children
        } else {
            Seq::empty()
        })
    }
}

/// Where a scan begins: just behind `start`, or at the front.
pub open spec fn scan_from(items: Seq<usize>, start: Option<usize>) -> Option<int> {
    match start {
        Some(s) => match first_index(items, s) {
            Some(i) => Some(i + 1),
            None => None,
        },
        None => Some(0int),
    }
}

/// Where a scan ends: at `stop`, or at the back.
pub open spec fn scan_to(items: Seq<usize>, stop: Option<usize>) -> Option<int> {
    match stop {
        Some(s) => first_index(items, s),
        None => Some(items.len() as int),
    }
}

/// What [`Segments::select`] returns: the segments strictly between
/// `start` and `stop`, up to the first on which `loop_while` fails, that
/// satisfy `select_if`; `None` when a bound is given and is not in `items`.
pub open spec fn select_spec(
    items: Seq<usize>,
    a: Seq<SegmentData>,
    select_if: Option<PredicateData>,
    loop_while: Option<PredicateData>,
    start: Option<usize>,
    stop: Option<usize>,
) -> Option<Seq<usize>> {
    let lo = scan_from(items, start);
    let hi = scan_to(items, stop);
    if lo is Some && hi is Some {
        let window = if lo.unwrap() <= hi.unwrap() {
            items.subrange(lo.unwrap(), hi.unwrap())
        } else {
            Seq::empty()
        };
        let run = window.take(run_len(window, test_of(loop_while, a)));
        Some(run.filter(test_of(select_if, a)))
    } else {
        None
    }
}

/// Without bounds and without a condition to go on, a selection is a
/// plain filter.
pub proof fn lemma_select_plain(items: Seq<usize>, a: Seq<SegmentData>, p: Option<PredicateData>)
    ensures
        select_spec(items, a, p, None, None, None) == Some(items.filter(test_of(p, a))),
{
    let window = items.subrange(0, items.len() as int);
    assert(window =~= items);
    lemma_run_len(items, test_of(None, a), items.len() as int);
    assert(items.take(items.len() as int) =~= items);
}

/// A segment that a query names as a bound is not among the segments
/// queried.
#[derive(Debug, Clone, Copy, PartialEq, Eq)]
pub struct ScopeError {
    pub segment: usize,
}

/// An ordered selection of segments of one arena.
pub struct Segments<'a> {
    pub arena: &'a SegmentArena,
    pub items: Vec<usize>,
}

impl<'a> View for Segments<'a> {
    type V = Seq<usize>;

    open spec fn view(&self) -> Seq<usize> {
        self.items@
    }
}

/// Every slot in `ids` is in an arena of `n` segments.
pub open spec fn all_below(ids: Seq<usize>, n: nat) -> bool {
    forall|j: int| 0 <= j < ids.len() ==> ids[j] < n
}

impl<'a> Segments<'a> {
    /// The arena is well formed and holds every selected segment.
    pub open spec fn wf(&self) -> bool {
        self.arena.wf() && all_below(self.items@, self.arena@.len())
    }

    /// The selection `items` of `arena`.
    pub fn new(arena: &'a SegmentArena, items: Vec<usize>) -> (out: Segments<'a>)
        requires
            arena.wf(),
            all_below(items@, arena@.len()),
        ensures
            out.wf(),
            out.arena == arena,
            out@ == items@,
    {
        Segments { arena, items }
    }

    /// The selection that holds segment `id` alone.
    pub fn from_segment(arena: &'a SegmentArena, id: usize) -> (out: Segments<'a>)
        requires
            arena.wf(),
            id < arena@.len(),
        ensures
            out.wf(),
            out.arena == arena,
            out@ == seq![id],
    {
        let mut items: Vec<usize> = Vec::new();
        items.push(id);
        Segments { arena, items }
    }

    /// How many segments are selected.
    pub fn len(&self) -> (n: usize)
        ensures
            n == self@.len(),
    {
        self.items.len()
    }

    /// Whether no segment is selected.
    pub fn is_empty(&self) -> (yes: bool)
        ensures
            yes == (self@.len() == 0),
    {
        self.items.len() == 0
    }

    /// The segment at place `index`, if there is one.
    pub fn get(&self, index: usize) -> (out: Option<usize>)
        ensures
            out == (if index < self@.len() {
                Some(self@[index as int])
            } else {
                None
            }),
    {
        if index < self.items.len() {
            Some(self.items[index])
        } else {
            None
        }
    }

    /// The first of the selected segments.
    pub fn first(&self) -> (out: Option<usize>)
        ensures
            out == (if self@.len() > 0 {
                Some(self@.first())
            } else {
                None
            }),
    {
        self.get(0)
    }

    /// The last of the selected segments.
    pub fn last(&self) -> (out: Option<usize>)
        ensures
            out == (if self@.len() > 0 {
                Some(self@.last())
            } else {
                None
            }),
    {
        if self.items.len() > 0 {
            Some(self.items[self.items.len() - 1])
        } else {
            None
        }
    }

    /// The first place of `segment` in the selection, by identity.
    pub fn find(&self, segment: usize) -> (out: Option<usize>)
        ensures
            match out {
                Some(i) => i < usize::MAX && is_first_index(self@, segment, i as int)
                    && first_index(self@, segment) == Some(i as int),
                None => first_index(self@, segment) is None,
            },
    {
        index_in(&self.items, segment)
    }

    /// The first place of `segment`, which the caller holds to be in the
    /// selection; an error when it is not.
    pub fn index_of(&self, segment: usize) -> (out: Result<usize, ScopeError>)
        ensures
            match out {
                Ok(i) => i < usize::MAX && is_first_index(self@, segment, i as int)
                    && first_index(self@, segment) == Some(i as int),
                Err(e) => first_index(self@, segment) is None && e.segment == segment,
            },
    {
        match self.find(segment) {
            Some(i) => Ok(i),
            None => Err(ScopeError { segment }),
        }
    }

    /// The segments strictly between `start` and `stop` that satisfy
    /// `select_if`, scanning only while `loop_while` holds. An absent
    /// bound stands for the end of the selection on its side.
    pub fn select(
        &self,
        select_if: Option<&SegmentPredicate>,
        loop_while: Option<&SegmentPredicate>,
        start: Option<usize>,
        stop: Option<usize>,
    ) -> (out: Result<Segments<'a>, ScopeError>)
        requires
            self.wf(),
        ensures
            match out {
                Ok(found) => found.wf() && found.arena == self.arena && select_spec(
                    self@,
                    self.arena@,
                    pred_view(select_if),
                    pred_view(loop_while),
                    start,
                    stop,
                ) == Some(found@),
                Err(e) => select_spec(
                    self@,
                    self.arena@,
                    pred_view(select_if),
                    pred_view(loop_while),
                    start,
                    stop,
                ) is None && (start == Some(e.segment) || stop == Some(e.segment)),
            },
    {
        let lo: usize = match start {
            Some(s) => match self.index_of(s) {
                Ok(i) => i + 1,
                Err(e) => {
                    return Err(e);
                },
            },
            None => 0,
        };
        let hi: usize = match stop {
            Some(s) => match self.index_of(s) {
                Ok(i) => i,
                Err(e) => {
                    return Err(e);
                },
            },
            None => self.items.len(),
        };
        let ghost window = if lo <= hi {
            self@.subrange(lo as int, hi as int)
        } else {
            Seq::empty()
        };
        let ghost keep = test_of(pred_view(loop_while), self.arena@);
        let ghost pick = test_of(pred_view(select_if), self.arena@);
        let mut found: Vec<usize> = Vec::new();
        let mut i: usize = lo;
        proof {
            reveal(Seq::filter);
            assert(window.take(0) =~= Seq::<usize>::empty());
        }
        while i < hi
            invariant
                self.wf(),
                scan_from(self@, start) == Some(lo as int),
                scan_to(self@, stop) == Some(hi as int),
                hi <= self@.len(),
                lo <= i,
                lo <= hi ==> i <= hi,
                lo > hi ==> i == lo,
                window == (if lo <= hi {
                    self@.subrange(lo as int, hi as int)
                } else {
                    Seq::empty()
                }),
                keep == test_of(pred_view(loop_while), self.arena@),
                pick == test_of(pred_view(select_if), self.arena@),
                forall|j: int| 0 <= j < i - lo ==> keep(#[trigger] window[j]),
                found@ == window.take(i - lo).filter(pick),
                all_below(found@, self.arena@.len()),
            decreases hi - i,
        {
            let id = self.items[i];
            assert(window[i - lo] == id);
            let go_on = match loop_while {
                Some(p) => p.test(self.arena, id),
                None => true,
            };
            if !go_on {
                proof {
                    lemma_run_len(window, keep, i - lo);
                }
                return Ok(Segments { arena: self.arena, items: found });
            }
            let take_it = match select_if {
                Some(p) => p.test(self.arena, id),
                None => true,
            };
            proof {
                reveal(Seq::filter);
                assert(window.take(i - lo + 1).drop_last() == window.take(i - lo));
                assert(window.take(i - lo + 1).last() == id);
            }
            if take_it {
                found.push(id);
            }
            i = i + 1;
        }
        proof {
            if lo <= hi {
                lemma_run_len(window, keep, i - lo);
            }
        }
        Ok(Segments { arena: self.arena, items: found })
    }

    /// The segments that satisfy `pred`, in order.
    pub fn select_if(&self, pred: &SegmentPredicate) -> (out: Segments<'a>)
        requires
            self.wf(),
        ensures
            out.wf(),
            out.arena == self.arena,
            out@ == self@.filter(test_of(Some(pred@), self.arena@)),
    {
        proof {
            lemma_select_plain(self@, self.arena@, Some(pred@));
        }
        match self.select(Some(pred), None, None, None) {
            Ok(found) => found,
            Err(_) => Segments { arena: self.arena, items: Vec::new() },
        }
    }

    /// The first segment that satisfies `pred`, as a selection of one, or
    /// the empty selection.
    pub fn find_first(&self, pred: Option<&SegmentPredicate>) -> (out: Segments<'a>)
        requires
            self.wf(),
        ensures
            out.wf(),
            out.arena == self.arena,
            out@ == head_of(self@.filter(test_of(pred_view(pred), self.arena@))),
    {
        let ghost pick = test_of(pred_view(pred), self.arena@);
        let mut i: usize = 0;
        proof {
            reveal(Seq::filter);
        }
        while i < self.items.len()
            invariant
                self.wf(),
                0 <= i <= self@.len(),
                pick == test_of(pred_view(pred), self.arena@),
                self@.take(i as int).filter(pick) == Seq::<usize>::empty(),
            decreases self@.len() - i,
        {
            let id = self.items[i];
            let hit = match pred {
                Some(p) => p.test(self.arena, id),
                None => true,
            };
            proof {
                reveal(Seq::filter);
                assert(self@.take(i + 1).drop_last() == self@.take(i as int));
                assert(self@.take(i + 1).last() == id);
            }
            if hit {
                let out = Segments::from_segment(self.arena, id);
                proof {
                    let head = self@.take(i + 1);
                    let tail = self@.skip(i + 1);
                    assert(self@ =~= head + tail);
                    Seq::filter_distributes_over_add(head, tail, pick);
                    assert(head.filter(pick) =~= seq![id]);
                    assert((head.filter(pick) + tail.filter(pick))[0] == id);
                }
                return out;
            }
            i = i + 1;
        }
        proof {
            assert(self@.take(i as int) == self@);
        }
        Segments { arena: self.arena, items: Vec::new() }
    }

    /// The selection in reverse order.
    pub fn reversed(&self) -> (out: Segments<'a>)
        requires
            self.wf(),
        ensures
            out.wf(),
            out.arena == self.arena,
            out@ == self@.reverse(),
    {
        let n = self.items.len();
        let mut items: Vec<usize> = Vec::new();
        let mut i: usize = 0;
        while i < n
            invariant
                self.wf(),
                n == self@.len(),
                0 <= i <= n,
                items@.len() == i,
                forall|j: int| 0 <= j < i ==> items@[j] == self@[n - 1 - j],
            decreases n - i,
        {
            items.push(self.items[n - 1 - i]);
            i = i + 1;
        }
        assert(items@ =~= self@.reverse());
        Segments { arena: self.arena, items }
    }

    /// The children of the selected segments that satisfy `pred`, in order.
    pub fn children(&self, pred: Option<&SegmentPredicate>) -> (out: Segments<'a>)
        requires
            self.wf(),
        ensures
            out.wf(),
            out.arena == self.arena,
            out@ == children_of_all(
                self.arena@,
                self@,
            ).filter(test_of(pred_view(pred), self.arena@)),
    {
        let ghost pick = test_of(pred_view(pred), self.arena@);
        let ghost a = self.arena@;
        let mut found: Vec<usize> = Vec::new();
        let mut i: usize = 0;
        proof {
            reveal(Seq::filter);
        }
        while i < self.items.len()
            invariant
                self.wf(),
                a == self.arena@,
                0 <= i <= self@.len(),
                pick == test_of(pred_view(pred), a),
                found@ == children_of_all(a, self@.take(i as int)).filter(pick),
                all_below(found@, a.len()),
            decreases self@.len() - i,
        {
            let kids = self.arena.children(self.items[i]);
            let ghost before = children_of_all(a, self@.take(i as int));
            let mut j: usize = 0;
            proof {
                assert(kids@.take(0) =~= Seq::<usize>::empty());
                assert(before + Seq::<usize>::empty() =~= before);
            }
            while j < kids.len()
                invariant
                    self.wf(),
                    a == self.arena@,
                    i < self@.len(),
                    pick == test_of(pred_view(pred), a),
                    kids@ == a[self@[i as int] as int].children,
                    forall|k: int| 0 <= k < kids@.len() ==> kids@[k] < self@[i as int],
                    0 <= j <= kids@.len(),
                    found@ == (before + kids@.take(j as int)).filter(pick),
                    all_below(found@, a.len()),
                decreases kids@.len() - j,
            {
                let id = kids[j];
                let hit = match pred {
                    Some(p) => p.test(self.arena, id),
                    None => true,
                };
                proof {
                    reveal(Seq::filter);
                    assert((before + kids@.take(j + 1)).drop_last() =~= before + kids@.take(
                        j as int,
                    ));
                    assert((before + kids@.take(j + 1)).last() == id);
                }
                if hit {
                    found.push(id);
                }
                j = j + 1;
            }
            proof {
                assert(kids@.take(j as int) == kids@);
                assert(self@.take(i + 1).drop_last() == self@.take(i as int));
            }
            i = i + 1;
        }
        proof {
            assert(self@.take(i as int) == self@);
        }
        Segments { arena: self.arena, items: found }
    }
}

} // verus!
