use ahash::AHashMap;
use sqruff_lib::api::{fix_with_limit, lint, SyntaxTree};
use sqruff_lib::apply::rebuild;
use sqruff_lib::config::Value;
use sqruff_lib::conflict::{select_fixes, FixDecision};
use sqruff_lib::crawler::{recursive_crawl, Crawler, SegmentSeekerCrawler};
use sqruff_lib::fix::{EditSegment, EditType, LintFix, LintResult};
use sqruff_lib::fixer::{fix_tree, next_state, FixState};
use sqruff_lib::linter::{evaluate, lint_tree, Diagnostic};
use sqruff_lib::position::PositionMarker;
use sqruff_lib::query::{
    and, is_code, is_comment, is_keyword, is_meta, is_type, is_whitespace, not, or, Segments,
};
use sqruff_lib::reflow::{
    spacing_of, spacing_policy, Filter, ReflowSequence, ReflowSide, Spacing,
};
use sqruff_lib::rule::Rule;
use sqruff_lib::rules::aliasing::al06::{at_least_message, no_more_than_message, RuleAL06};
use sqruff_lib::rules::aliasing::al09::RuleAL09;
use sqruff_lib::rules::ambiguous::am02::{classify_union, union_distinct_edit, RuleAM02};
use sqruff_lib::rules::convention::cv05::{edit_of, CorrectionListItem, RuleCV05};
use sqruff_lib::rules::layout::lt09::{is_place_before, RuleLT09, WildcardPolicy};
use sqruff_lib::rules::structure::st08::RuleST08;
use sqruff_lib::rules::ErasedRule;
use sqruff_lib::segment::{
    code_kind, comment_kind, kind_among, meta_kind, whitespace_kind, SegmentArena,
};
use sqruff_lib::text::{chars_of, contains, str_eq};

/// The tree of `SELECT a, b FROM t`, built leaves first.
///
/// file 21
///   select_statement 20
///     select_clause 10: SELECT 0, " " 1, element 4 (column 3 (a 2)), "," 5, " " 6,
///                       element 9 (column 8 (b 7))
///     " " 11
///     from_clause 19: FROM 12, " " 13, from_expression 18 (element 17 (table 16 (ref 15 (t 14))))
fn select_a_b() -> (SegmentArena, usize) {
    let mut a = SegmentArena::new();
    assert_eq!(a.add_leaf("keyword", "SELECT"), 0);
    assert_eq!(a.add_leaf("whitespace", " "), 1);
    assert_eq!(a.add_leaf("naked_identifier", "a"), 2);
    assert_eq!(a.add_node("column_reference", vec![2]), Some(3));
    assert_eq!(a.add_node("select_clause_element", vec![3]), Some(4));
    assert_eq!(a.add_leaf("comma", ","), 5);
    assert_eq!(a.add_leaf("whitespace", " "), 6);
    assert_eq!(a.add_leaf("naked_identifier", "b"), 7);
    assert_eq!(a.add_node("column_reference", vec![7]), Some(8));
    assert_eq!(a.add_node("select_clause_element", vec![8]), Some(9));
    assert_eq!(a.add_node("select_clause", vec![0, 1, 4, 5, 6, 9]), Some(10));
    assert_eq!(a.add_leaf("whitespace", " "), 11);
    assert_eq!(a.add_leaf("keyword", "FROM"), 12);
    assert_eq!(a.add_leaf("whitespace", " "), 13);
    assert_eq!(a.add_leaf("naked_identifier", "t"), 14);
    assert_eq!(a.add_node("object_reference", vec![14]), Some(15));
    assert_eq!(a.add_node("table_expression", vec![15]), Some(16));
    assert_eq!(a.add_node("from_expression_element", vec![16]), Some(17));
    assert_eq!(a.add_node("from_expression", vec![17]), Some(18));
    assert_eq!(a.add_node("from_clause", vec![12, 13, 18]), Some(19));
    assert_eq!(a.add_node("select_statement", vec![10, 11, 19]), Some(20));
    assert_eq!(a.add_node("file", vec![20]), Some(21));
    (a, 21)
}

fn no_config() -> AHashMap<String, Value> {
    AHashMap::new()
}

/// The types and texts of the leaves that are neither whitespace nor
/// markers.
fn tokens(arena: &SegmentArena, root: usize) -> Vec<(String, String)> {
    arena
        .get_raw_segments(root)
        .into_iter()
        .filter(|k| !arena.is_whitespace(*k) && !arena.is_meta(*k) && !arena.leaf_text(*k).is_empty())
        .map(|k| (arena.kind(k).to_string(), arena.leaf_text(k).to_string()))
        .collect()
}

#[test]
fn test_arena_builds_and_serializes() {
    let (a, root) = select_a_b();
    assert_eq!(a.len(), 22);
    assert_eq!(a.raw_of(root), "SELECT a, b FROM t");
    assert_eq!(a.raw_of(10), "SELECT a, b");
    assert_eq!(a.raw_of(5), ",");
    assert_eq!(a.kind(19), "from_clause");
    assert_eq!(a.leaf_text(12), "FROM");
    assert_eq!(a.leaf_text(19), "");
    assert_eq!(a.children(10), &vec![0, 1, 4, 5, 6, 9]);
    assert_eq!(a.children(0), &Vec::<usize>::new());
    assert_eq!(a.get_raw_upper(10), "SELECT A, B");
}

#[test]
fn test_arena_refuses_unknown_child() {
    let mut a = SegmentArena::new();
    let leaf = a.add_leaf("keyword", "x");
    assert_eq!(a.add_node("n", vec![leaf, 7]), None);
    assert_eq!(a.len(), 1);
    assert_eq!(a.add_node("n", vec![leaf, 1]), None);
    assert_eq!(a.add_node("n", vec![leaf, leaf]), Some(1));
    assert_eq!(a.raw_of(1), "xx");
    assert!(a.holds_all(&vec![0, 1]));
    assert!(!a.holds_all(&vec![0, 2]));
}

#[test]
fn test_arena_children_by_type_and_leaves() {
    let (a, root) = select_a_b();
    assert_eq!(a.children_of_kind(10, &["select_clause_element"]), vec![4, 9]);
    assert_eq!(a.children_of_kind(10, &["whitespace", "comma"]), vec![1, 5, 6]);
    assert_eq!(a.children_of_kind(10, &["from_clause"]), Vec::<usize>::new());
    assert_eq!(a.child(10, &["comma", "whitespace"]), Some(1));
    assert_eq!(a.child(10, &["newline"]), None);
    assert_eq!(a.child_of_type(20, "from_clause"), Some(19));
    assert_eq!(a.get_raw_segments(root), vec![0, 1, 2, 5, 6, 7, 11, 12, 13, 14]);
    assert_eq!(a.get_raw_segments(9), vec![7]);
    assert_eq!(a.get_raw_segments(7), vec![7]);
}

#[test]
fn test_a_copy_has_the_content_and_an_identity_of_its_own() {
    let (mut a, _) = select_a_b();
    let copy = a.duplicate(10);
    assert_eq!(copy, 22);
    assert_eq!(a.kind(copy), "select_clause");
    assert_eq!(a.children(copy), &vec![0, 1, 4, 5, 6, 9]);
    assert_eq!(a.raw_of(copy), a.raw_of(10));
    let leaf = a.duplicate(0);
    assert_eq!(leaf, 23);
    assert_eq!(a.leaf_text(leaf), "SELECT");
    assert!(!a.in_subtree(21, copy));
}

#[test]
fn test_arena_subtree_membership() {
    let (a, root) = select_a_b();
    assert!(a.in_subtree(root, root));
    assert!(a.in_subtree(root, 2));
    assert!(a.in_subtree(10, 7));
    assert!(!a.in_subtree(10, 14));
    assert!(!a.in_subtree(2, 3));
    assert!(a.has_descendant(10, 2));
    assert!(!a.has_descendant(10, 10));
    assert!(!a.has_descendant(19, 2));
    assert!(!a.has_descendant(root, 22));
}

#[test]
fn test_kinds_of_segments() {
    assert!(whitespace_kind("whitespace"));
    assert!(whitespace_kind("newline"));
    assert!(!whitespace_kind("comma"));
    assert!(meta_kind("indent"));
    assert!(meta_kind("dedent"));
    assert!(meta_kind("end_of_file"));
    assert!(!meta_kind("whitespace"));
    assert!(comment_kind("comment"));
    assert!(comment_kind("inline_comment"));
    assert!(comment_kind("block_comment"));
    assert!(code_kind("keyword"));
    assert!(!code_kind("newline"));
    assert!(!code_kind("indent"));
    assert!(!code_kind("inline_comment"));
    assert!(kind_among("b", &["a", "b"]));
    assert!(!kind_among("c", &["a", "b"]));
    assert!(!kind_among("c", &[]));
    let (a, _) = select_a_b();
    assert!(a.is_type(0, "keyword"));
    assert!(!a.is_type(0, "whitespace"));
    assert!(a.is_code(0));
    assert!(a.is_whitespace(1));
    assert!(!a.is_meta(1));
}

#[test]
fn test_text_primitives() {
    assert!(str_eq("abc", "abc"));
    assert!(!str_eq("abc", "abd"));
    assert!(!str_eq("abc", "ab"));
    assert_eq!(chars_of("a\u{e9}b"), vec!['a', '\u{e9}', 'b']);
    assert!(contains("hello world", "lo w"));
    assert!(contains("hello", "hello"));
    assert!(contains("hello", ""));
    assert!(contains("", ""));
    assert!(!contains("", "a"));
    assert!(!contains("ab", "abc"));
    assert!(!contains("hello", "hex"));
    assert!(contains("aab", "ab"));
}

#[test]
fn test_position_markers() {
    let p = PositionMarker::origin();
    assert_eq!(p, PositionMarker { offset: 0, line_no: 1, line_pos: 1 });
    assert_eq!(p.after_char('x'), PositionMarker { offset: 1, line_no: 1, line_pos: 2 });
    assert_eq!(p.after_char('\n'), PositionMarker { offset: 1, line_no: 2, line_pos: 1 });
    assert_eq!(p.after_text("ab\ncd"), PositionMarker { offset: 5, line_no: 2, line_pos: 3 });
    assert_eq!(p.after_text(""), p);
    let top = PositionMarker { offset: usize::MAX, line_no: usize::MAX, line_pos: usize::MAX };
    assert_eq!(
        top.after_char('x'),
        PositionMarker { offset: usize::MAX, line_no: usize::MAX, line_pos: usize::MAX }
    );
    assert_eq!(
        top.after_char('\n'),
        PositionMarker { offset: usize::MAX, line_no: usize::MAX, line_pos: 1 }
    );
    let q = p.after_text("ab\ncd");
    assert!(p.is_before(&q));
    assert!(!q.is_before(&p));
    assert!(!p.is_before(&p));
    assert!(!p.same_line(&q));
    assert!(q.same_line(&q.after_char('x')));
    let (a, root) = select_a_b();
    assert_eq!(p.after_segment(&a, root), PositionMarker { offset: 18, line_no: 1, line_pos: 19 });
    assert_eq!(p.locate(&a, root, root), Some(p));
    assert_eq!(p.locate(&a, root, 7), Some(PositionMarker { offset: 10, line_no: 1, line_pos: 11 }));
    assert_eq!(p.locate(&a, root, 19), Some(PositionMarker { offset: 12, line_no: 1, line_pos: 13 }));
    assert_eq!(p.locate(&a, 10, 14), None);
}

#[test]
fn test_positions_follow_document_order() {
    let (a, root) = select_a_b();
    let p = PositionMarker::origin();
    let mut last = 0;
    for leaf in a.get_raw_segments(root) {
        let at = p.locate(&a, root, leaf).unwrap();
        assert!(at.offset >= last);
        last = at.offset;
    }
    assert_eq!(last, 17);
}

#[test]
fn test_predicates() {
    let (a, _) = select_a_b();
    assert!(is_type("keyword").test(&a, 0));
    assert!(!is_type("keyword").test(&a, 1));
    assert!(is_keyword("select").test(&a, 0));
    assert!(is_keyword("from").test(&a, 12));
    assert!(!is_keyword("SELECT").test(&a, 0));
    assert!(!is_keyword("a").test(&a, 2));
    assert!(is_code().test(&a, 0));
    assert!(!is_code().test(&a, 1));
    assert!(is_whitespace().test(&a, 1));
    assert!(!is_meta().test(&a, 1));
    assert!(!is_comment().test(&a, 1));
    assert!(not(is_code()).test(&a, 1));
    assert!(or(is_type("comma"), is_whitespace()).test(&a, 5));
    assert!(!or(is_type("comma"), is_whitespace()).test(&a, 0));
    assert!(and(is_type("keyword"), is_keyword("from")).test(&a, 12));
    assert!(!and(is_type("keyword"), is_keyword("from")).test(&a, 0));
}

#[test]
fn test_select_scans_between_bounds() {
    let (a, _) = select_a_b();
    let kids = Segments::new(&a, vec![0, 1, 4, 5, 6, 9]);
    let all = kids.select(None, None, None, None).ok().unwrap();
    assert_eq!(all.items, vec![0, 1, 4, 5, 6, 9]);
    let elements = kids.select(Some(&is_type("select_clause_element")), None, None, None);
    assert_eq!(elements.ok().unwrap().items, vec![4, 9]);
    let after = kids.select(None, None, Some(4), None).ok().unwrap();
    assert_eq!(after.items, vec![5, 6, 9]);
    let between = kids.select(None, None, Some(1), Some(6)).ok().unwrap();
    assert_eq!(between.items, vec![4, 5]);
    let before = kids.select(None, None, None, Some(4)).ok().unwrap();
    assert_eq!(before.items, vec![0, 1]);
    let crossed = kids.select(None, None, Some(6), Some(1)).ok().unwrap();
    assert!(crossed.is_empty());
    let adjacent = kids.select(None, None, Some(4), Some(5)).ok().unwrap();
    assert!(adjacent.is_empty());
    let run = kids.select(None, Some(&not(is_type("comma"))), Some(0), None).ok().unwrap();
    assert_eq!(run.items, vec![1, 4]);
    let picked = kids
        .select(Some(&is_whitespace()), Some(&not(is_type("select_clause_element"))), None, None)
        .ok()
        .unwrap();
    assert_eq!(picked.items, vec![1]);
    let stopped = kids.select(None, Some(&is_whitespace()), None, None).ok().unwrap();
    assert!(stopped.is_empty());
}

#[test]
fn test_select_reports_a_bound_out_of_scope() {
    let (a, _) = select_a_b();
    let kids = Segments::new(&a, vec![0, 1, 4, 5, 6, 9]);
    let e = kids.select(None, None, Some(19), None).err().unwrap();
    assert_eq!(e.segment, 19);
    let e = kids.select(None, None, None, Some(12)).err().unwrap();
    assert_eq!(e.segment, 12);
    let e = kids.index_of(2).err().unwrap();
    assert_eq!(e.segment, 2);
    assert_eq!(kids.index_of(5).ok(), Some(3));
    assert_eq!(kids.find(5), Some(3));
    assert_eq!(kids.find(2), None);
    let twice = Segments::new(&a, vec![1, 5, 1]);
    assert_eq!(twice.find(1), Some(0));
}

#[test]
fn test_selection_accessors() {
    let (a, _) = select_a_b();
    let kids = Segments::new(&a, vec![0, 1, 4, 5, 6, 9]);
    assert_eq!(kids.len(), 6);
    assert!(!kids.is_empty());
    assert_eq!(kids.get(2), Some(4));
    assert_eq!(kids.get(6), None);
    assert_eq!(kids.first(), Some(0));
    assert_eq!(kids.last(), Some(9));
    assert_eq!(kids.reversed().items, vec![9, 6, 5, 4, 1, 0]);
    assert_eq!(kids.find_first(Some(&is_whitespace())).items, vec![1]);
    assert_eq!(kids.find_first(Some(&is_type("newline"))).items, Vec::<usize>::new());
    assert_eq!(kids.find_first(None).items, vec![0]);
    assert_eq!(kids.select_if(&is_whitespace()).items, vec![1, 6]);
    let none = Segments::new(&a, vec![]);
    assert!(none.is_empty());
    assert_eq!(none.first(), None);
    assert_eq!(none.last(), None);
    assert!(none.find_first(None).is_empty());
    let one = Segments::from_segment(&a, 20);
    assert_eq!(one.items, vec![20]);
    assert_eq!(one.children(None).items, vec![10, 11, 19]);
    assert_eq!(one.children(Some(&is_whitespace())).items, vec![11]);
    let two = Segments::new(&a, vec![4, 9]);
    assert_eq!(two.children(None).items, vec![3, 8]);
}

#[test]
fn test_seeker_reports_in_document_order_with_context() {
    let (a, root) = select_a_b();
    let config = no_config();
    let crawler = SegmentSeekerCrawler::new(&["select_clause_element", "from_clause"]).into_crawler();
    let found = crawler.crawl(&a, root, "ansi", &config);
    assert_eq!(found.len(), 3);
    assert_eq!(found[0].segment, 4);
    assert_eq!(found[0].parent_stack, vec![21, 20, 10]);
    assert_eq!(found[0].segment_idx, 2);
    assert_eq!(found[0].position, PositionMarker { offset: 7, line_no: 1, line_pos: 8 });
    assert_eq!(found[0].dialect, "ansi");
    assert_eq!(found[1].segment, 9);
    assert_eq!(found[1].segment_idx, 5);
    assert_eq!(found[1].position.offset, 10);
    assert_eq!(found[2].segment, 19);
    assert_eq!(found[2].parent_stack, vec![21, 20]);
    assert_eq!(found[2].segment_idx, 2);
    assert_eq!(found[2].position.offset, 12);
    assert_eq!(found[0].siblings_pre().items, vec![0, 1]);
    assert_eq!(found[0].siblings_post().items, vec![5, 6, 9]);
    assert_eq!(found[1].siblings_post().items, Vec::<usize>::new());
    assert_eq!(found[0].parent(), Some(10));
    assert_eq!(found[0].segment().items, vec![4]);
    assert_eq!(found[0].children().items, vec![3]);
    assert_eq!(found[0].parent_stack().items, vec![21, 20, 10]);
}

#[test]
fn test_seeker_matches_the_root_and_stops_at_matches_when_told() {
    let (a, root) = select_a_b();
    let config = no_config();
    let deep = SegmentSeekerCrawler::new(&["file", "select_clause", "column_reference"]);
    let found = deep.into_crawler().crawl(&a, root, "ansi", &config);
    let segments: Vec<usize> = found.iter().map(|c| c.segment).collect();
    assert_eq!(segments, vec![21, 10, 3, 8]);
    assert!(found[0].parent_stack.is_empty());
    assert_eq!(found[0].segment_idx, 0);
    assert!(found[0].siblings_pre().is_empty());
    assert!(found[0].siblings_post().is_empty());
    assert_eq!(found[0].parent(), None);
    let flat = SegmentSeekerCrawler::new(&["select_clause", "column_reference"]).with_recurse(false);
    let found = flat.into_crawler().crawl(&a, root, "ansi", &config);
    let segments: Vec<usize> = found.iter().map(|c| c.segment).collect();
    assert_eq!(segments, vec![10]);
    let only = Crawler::RootOnly.crawl(&a, root, "ansi", &config);
    assert_eq!(only.len(), 1);
    assert_eq!(only[0].segment, root);
    let none = SegmentSeekerCrawler::for_type("newline").crawl(&a, root, "ansi", &config);
    assert!(none.is_empty());
}

#[test]
fn test_recursive_crawl_flags() {
    let (a, root) = select_a_b();
    let types = ["select_statement", "select_clause_element", "column_reference"];
    assert_eq!(recursive_crawl(&a, root, &types, true, None, true), vec![20, 4, 3, 9, 8]);
    assert_eq!(recursive_crawl(&a, root, &types, false, None, true), vec![20]);
    assert_eq!(recursive_crawl(&a, 20, &types, true, None, false), vec![4, 3, 9, 8]);
    assert_eq!(recursive_crawl(&a, 20, &types, false, None, false), vec![4, 9]);
    assert_eq!(
        recursive_crawl(&a, root, &types, true, Some("select_clause"), true),
        vec![20]
    );
    assert_eq!(recursive_crawl(&a, 4, &["select_clause_element"], false, None, true), vec![4]);
    assert_eq!(recursive_crawl(&a, 2, &["keyword"], true, None, true), Vec::<usize>::new());
}

#[test]
fn test_delete_rebuilds_the_path_and_shares_the_rest() {
    let (mut a, root) = select_a_b();
    let plan = vec![LintFix::delete(5), LintFix::delete(6), LintFix::delete(9)];
    let next = rebuild(&mut a, root, &plan);
    assert_eq!(a.raw_of(next), "SELECT a FROM t");
    // The old tree is as it was.
    assert_eq!(a.raw_of(root), "SELECT a, b FROM t");
    // New segments for the path to the edits, and for nothing else.
    assert_eq!(a.len(), 25);
    assert_eq!(next, 24);
    assert_eq!(a.kind(24), "file");
    assert_eq!(a.children(24), &vec![23]);
    assert_eq!(a.kind(23), "select_statement");
    assert_eq!(a.children(23), &vec![22, 11, 19]);
    assert_eq!(a.kind(22), "select_clause");
    assert_eq!(a.children(22), &vec![0, 1, 4]);
}

#[test]
fn test_replace_and_create_put_segments_in_place() {
    let (mut a, root) = select_a_b();
    let plan = vec![
        LintFix::replace(2, vec![EditSegment::new_leaf("naked_identifier", "x")]),
        LintFix::create_before(5, vec![EditSegment::whitespace(" ")]),
        LintFix::create_after(9, vec![EditSegment::newline(), EditSegment::Existing(4)]),
        LintFix::create_before(9, vec![EditSegment::keyword("k")]),
        LintFix::create_before(9, vec![EditSegment::keyword("l")]),
    ];
    let next = rebuild(&mut a, root, &plan);
    assert_eq!(a.raw_of(next), "SELECT x , klb\na FROM t");
    assert_eq!(a.raw_of(root), "SELECT a, b FROM t");
    // The segment brought in from the arena is the old one, untouched.
    assert_eq!(a.raw_of(4), "a");
}

#[test]
fn test_the_first_removal_of_a_segment_decides() {
    let (mut a, root) = select_a_b();
    let plan = vec![
        LintFix::replace(5, vec![EditSegment::new_leaf("comma", ";")]),
        LintFix::delete(5),
    ];
    let next = rebuild(&mut a, root, &plan);
    assert_eq!(a.raw_of(next), "SELECT a; b FROM t");
    let (mut a, root) = select_a_b();
    let plan = vec![
        LintFix::delete(5),
        LintFix::replace(5, vec![EditSegment::new_leaf("comma", ";")]),
    ];
    let next = rebuild(&mut a, root, &plan);
    assert_eq!(a.raw_of(next), "SELECT a b FROM t");
}

#[test]
fn test_no_edit_leaves_the_tree_as_it_is() {
    let (mut a, root) = select_a_b();
    let next = rebuild(&mut a, root, &vec![]);
    assert_eq!(next, root);
    assert_eq!(a.len(), 22);
    // An edit at the root has no parent to be applied in.
    let next = rebuild(&mut a, root, &vec![LintFix::delete(root)]);
    assert_eq!(next, root);
    assert_eq!(a.len(), 22);
    // An edit outside the tree below the segment changes nothing there.
    let next = rebuild(&mut a, 10, &vec![LintFix::delete(14)]);
    assert_eq!(next, 10);
    assert_eq!(a.len(), 22);
}

#[test]
fn test_a_segment_that_loses_all_children_has_no_text() {
    let (mut a, root) = select_a_b();
    let next = rebuild(&mut a, root, &vec![LintFix::delete(2)]);
    assert_eq!(a.raw_of(next), "SELECT , b FROM t");
}

fn result_with(anchor: usize, fixes: Vec<LintFix>) -> LintResult {
    LintResult::new(anchor, fixes, None, Vec::new())
}

#[test]
fn test_fix_constructors() {
    let f = LintFix::delete(3);
    assert_eq!(f.edit_type, EditType::Delete);
    assert_eq!(f.anchor, 3);
    assert!(f.edit.is_empty());
    let f = LintFix::replace(4, vec![EditSegment::keyword("IS")]);
    assert_eq!(f.edit_type, EditType::Replace);
    assert!(matches!(&f.edit[0], EditSegment::New { kind, raw } if kind == "keyword" && raw == "IS"));
    let f = LintFix::create_before(5, vec![EditSegment::whitespace("  ")]);
    assert_eq!(f.edit_type, EditType::CreateBefore);
    assert!(matches!(&f.edit[0], EditSegment::New { kind, raw } if kind == "whitespace" && raw == "  "));
    let f = LintFix::create_after(6, vec![EditSegment::newline(), EditSegment::Existing(2)]);
    assert_eq!(f.edit_type, EditType::CreateAfter);
    assert!(matches!(&f.edit[0], EditSegment::New { kind, raw } if kind == "newline" && raw == "\n"));
    let g = f.duplicate();
    assert_eq!(g.anchor, 6);
    assert_eq!(g.edit.len(), 2);
    assert!(matches!(g.edit[1], EditSegment::Existing(2)));
    let r = LintResult::new(1, vec![g], Some("m".to_string()), vec![2, 3]);
    assert_eq!(r.anchor, 1);
    assert_eq!(r.fixes.len(), 1);
    assert_eq!(r.description.as_deref(), Some("m"));
    assert_eq!(r.context, vec![2, 3]);
}

#[test]
fn test_fixes_are_accepted_stale_or_deferred() {
    let (a, root) = select_a_b();
    let results = vec![
        // No fix at all.
        result_with(4, vec![]),
        // Two fixes on siblings: accepted.
        result_with(4, vec![LintFix::delete(5), LintFix::delete(6)]),
        // The same anchor as an accepted fix: deferred.
        result_with(5, vec![LintFix::delete(5)]),
        // An anchor that is not in the arena: stale.
        result_with(4, vec![LintFix::delete(40)]),
        // The root has no parent: stale.
        result_with(4, vec![LintFix::delete(root)]),
        // A segment to insert that is not in the arena: stale.
        result_with(4, vec![LintFix::create_after(9, vec![EditSegment::Existing(99)])]),
        // An ancestor of an accepted anchor: deferred.
        result_with(10, vec![LintFix::delete(10)]),
        // Apart from every accepted anchor: accepted.
        result_with(14, vec![LintFix::replace(14, vec![EditSegment::keyword("u")])]),
        // A descendant of an accepted anchor: deferred.
        result_with(14, vec![LintFix::delete(19), LintFix::delete(14)]),
    ];
    let (decisions, plan) = select_fixes(&a, root, &results);
    assert_eq!(
        decisions,
        vec![
            FixDecision::NoFix,
            FixDecision::Accepted,
            FixDecision::Deferred,
            FixDecision::Stale,
            FixDecision::Stale,
            FixDecision::Stale,
            FixDecision::Deferred,
            FixDecision::Accepted,
            FixDecision::Deferred,
        ]
    );
    let anchors: Vec<usize> = plan.iter().map(|f| f.anchor).collect();
    assert_eq!(anchors, vec![5, 6, 14]);
    // Every accepted fix names a segment of the tree.
    for f in &plan {
        assert!(a.has_descendant(root, f.anchor));
    }
}

#[test]
fn test_a_fix_on_a_segment_of_another_tree_is_stale() {
    let (mut a, root) = select_a_b();
    let orphan = a.add_leaf("keyword", "x");
    let results = vec![result_with(orphan, vec![LintFix::delete(orphan)])];
    let (decisions, plan) = select_fixes(&a, root, &results);
    assert_eq!(decisions, vec![FixDecision::Stale]);
    assert!(plan.is_empty());
    // After an edit, the segments on the rebuilt path are no longer in the tree.
    let next = rebuild(&mut a, root, &vec![LintFix::delete(5)]);
    let results = vec![
        result_with(10, vec![LintFix::create_after(10, vec![EditSegment::newline()])]),
        result_with(19, vec![LintFix::create_after(19, vec![EditSegment::newline()])]),
    ];
    let (decisions, _) = select_fixes(&a, next, &results);
    assert_eq!(decisions, vec![FixDecision::Stale, FixDecision::Accepted]);
}

#[test]
fn test_states_of_a_run() {
    assert_eq!(next_state(0, 0, 10), FixState::Converged);
    assert_eq!(next_state(0, 10, 10), FixState::Converged);
    assert_eq!(next_state(3, 0, 10), FixState::Applying);
    assert_eq!(next_state(3, 9, 10), FixState::Applying);
    assert_eq!(next_state(3, 10, 10), FixState::NonConverged);
    assert_eq!(next_state(1, 0, 0), FixState::NonConverged);
    assert_ne!(FixState::Crawling, FixState::Applying);
}

/// The tree of `SELECT a AS a FROM t`.
fn self_aliased() -> (SegmentArena, usize) {
    let mut a = SegmentArena::new();
    let select = a.add_leaf("keyword", "SELECT");
    let ws1 = a.add_leaf("whitespace", " ");
    let name = a.add_leaf("naked_identifier", "a");
    let column = a.add_node("column_reference", vec![name]).unwrap();
    let ws2 = a.add_leaf("whitespace", " ");
    let kw_as = a.add_leaf("keyword", "AS");
    let ws3 = a.add_leaf("whitespace", " ");
    let alias_name = a.add_leaf("naked_identifier", "A");
    let alias = a.add_node("alias_expression", vec![kw_as, ws3, alias_name]).unwrap();
    let element = a.add_node("select_clause_element", vec![column, ws2, alias]).unwrap();
    let clause = a.add_node("select_clause", vec![select, ws1, element]).unwrap();
    let ws4 = a.add_leaf("whitespace", " ");
    let from = a.add_leaf("keyword", "FROM");
    let ws5 = a.add_leaf("whitespace", " ");
    let t = a.add_leaf("naked_identifier", "t");
    let from_clause = a.add_node("from_clause", vec![from, ws5, t]).unwrap();
    let statement = a.add_node("select_statement", vec![clause, ws4, from_clause]).unwrap();
    let root = a.add_node("file", vec![statement]).unwrap();
    (a, root)
}

#[test]
fn test_fix_tree_converges_and_keeps_the_first_tree() {
    let (mut a, root) = self_aliased();
    let rules = vec![RuleAL09::default().erased()];
    let config = no_config();
    let outcome = fix_tree(&mut a, root, "ansi", &rules, &config, 10);
    assert_eq!(outcome.state, FixState::Converged);
    assert_eq!(outcome.cycles, 1);
    assert!(outcome.diagnostics.is_empty());
    assert_eq!(a.raw_of(outcome.root), "SELECT a FROM t");
    assert_eq!(a.raw_of(root), "SELECT a AS A FROM t");
    // A second run on the result changes nothing.
    let before = a.len();
    let again = fix_tree(&mut a, outcome.root, "ansi", &rules, &config, 10);
    assert_eq!(again.state, FixState::Converged);
    assert_eq!(again.cycles, 0);
    assert_eq!(again.root, outcome.root);
    assert_eq!(a.len(), before);
}

#[test]
fn test_fix_tree_reports_when_the_budget_runs_out() {
    let (mut a, root) = self_aliased();
    let rules = vec![RuleAL09::default().erased()];
    let config = no_config();
    let outcome = fix_tree(&mut a, root, "ansi", &rules, &config, 0);
    assert_eq!(outcome.state, FixState::NonConverged);
    assert_eq!(outcome.cycles, 0);
    assert_eq!(outcome.root, root);
    assert_eq!(outcome.diagnostics.len(), 1);
    assert!(matches!(outcome.diagnostics[0], Diagnostic::NonConvergence { cycles: 0 }));
    assert_eq!(a.raw_of(outcome.root), "SELECT a AS A FROM t");
    let (a, root) = self_aliased();
    let report = fix_with_limit(Ok(SyntaxTree { arena: a, root }), rules, "ansi", &config, 0)
        .ok()
        .unwrap();
    assert!(!report.converged);
    assert_eq!(report.text, "SELECT a AS A FROM t");
    assert_eq!(report.diagnostics.len(), 1);
}

#[test]
fn test_fixes_that_clash_are_applied_in_later_cycles() {
    // Both rules edit inside the select clause: the second waits a cycle.
    let mut a = SegmentArena::new();
    let select = a.add_leaf("keyword", "select");
    let nl = a.add_leaf("newline", "\n");
    let ws = a.add_leaf("whitespace", "    ");
    let name = a.add_leaf("naked_identifier", "a");
    let column = a.add_node("column_reference", vec![name]).unwrap();
    let ws2 = a.add_leaf("whitespace", " ");
    let kw_as = a.add_leaf("keyword", "as");
    let ws3 = a.add_leaf("whitespace", " ");
    let alias_name = a.add_leaf("naked_identifier", "a");
    let alias = a.add_node("alias_expression", vec![kw_as, ws3, alias_name]).unwrap();
    let element = a.add_node("select_clause_element", vec![column, ws2, alias]).unwrap();
    let clause = a.add_node("select_clause", vec![select, nl, ws, element]).unwrap();
    let nl2 = a.add_leaf("newline", "\n");
    let from = a.add_leaf("keyword", "from");
    let ws5 = a.add_leaf("whitespace", " ");
    let t = a.add_leaf("naked_identifier", "t");
    let from_clause = a.add_node("from_clause", vec![from, ws5, t]).unwrap();
    let statement = a.add_node("select_statement", vec![clause, nl2, from_clause]).unwrap();
    let root = a.add_node("file", vec![statement]).unwrap();
    assert_eq!(a.raw_of(root), "select\n    a as a\nfrom t");
    let rules = vec![RuleLT09::default().erased(), RuleAL09::default().erased()];
    let config = no_config();
    let outcome = fix_tree(&mut a, root, "ansi", &rules, &config, 10);
    assert_eq!(outcome.state, FixState::Converged);
    assert_eq!(outcome.cycles, 2);
    assert!(outcome.diagnostics.is_empty());
    assert_eq!(a.raw_of(outcome.root), "select a\nfrom t");
}

#[test]
fn test_only_a_parse_error_fails_the_call() {
    let config = no_config();
    let failed = Err(sqruff_lib::api::ParseError { message: "unexpected token".to_string() });
    let out = lint(failed, "ansi", vec![RuleAL09::default().erased()], &config);
    assert_eq!(out.err().unwrap().message, "unexpected token");
    let failed = Err(sqruff_lib::api::ParseError { message: "unexpected token".to_string() });
    let out = fix_with_limit(failed, vec![RuleAL09::default().erased()], "ansi", &config, 3);
    assert_eq!(out.err().unwrap().message, "unexpected token");
}

#[test]
fn test_a_tree_is_admitted_only_if_it_reproduces_the_source() {
    let (a, root) = select_a_b();
    let tree = SyntaxTree::from_parsed("SELECT a, b FROM t", a, root).ok().unwrap();
    assert_eq!(tree.raw(), "SELECT a, b FROM t");
    assert_eq!(tree.root, 21);
    let (a, root) = select_a_b();
    assert!(SyntaxTree::from_parsed("SELECT a,b FROM t", a, root).is_err());
    let (a, _) = select_a_b();
    assert!(SyntaxTree::from_parsed("SELECT a, b FROM t", a, 22).is_err());
    let (a, _) = select_a_b();
    assert!(SyntaxTree::from_parsed("SELECT a, b FROM t", a, 10).is_err());
    let (a, _) = select_a_b();
    assert!(SyntaxTree::from_parsed("SELECT a, b", a, 10).is_ok());
}

#[test]
fn test_a_rule_that_cannot_be_configured_is_left_out() {
    let (a, root) = self_aliased();
    let mut config = no_config();
    config.insert("max_alias_length".to_string(), Value::String("long".to_string()));
    let rules = vec![RuleAL06::default().erased(), RuleAL09::default().erased()];
    let report = lint_tree(&a, root, "ansi", &rules, &config);
    assert_eq!(report.diagnostics.len(), 1);
    assert!(matches!(
        &report.diagnostics[0],
        Diagnostic::ConfigError { rule_name, option }
            if rule_name == "aliasing.lenght" && option == "max_alias_length"
    ));
    assert_eq!(report.violations.len(), 1);
    assert_eq!(report.violations[0].rule_name, "aliasing.self_alias.column");
    assert_eq!(report.violations[0].message, "Column should not be self-aliased.");
    assert_eq!(report.violations[0].position, PositionMarker { offset: 7, line_no: 1, line_pos: 8 });
}

#[test]
fn test_options_of_the_alias_length_rule() {
    let rule = RuleAL06::default();
    assert_eq!(rule.min_alias_lenght, None);
    assert_eq!(rule.max_alias_lenght, None);
    let mut config = no_config();
    config.insert("min_alias_length".to_string(), Value::Int(2));
    config.insert("max_alias_length".to_string(), Value::Int(4294967295));
    match rule.load_from_config(&config).ok().unwrap() {
        ErasedRule::AL06(r) => {
            assert_eq!(r.min_alias_lenght, Some(2));
            assert_eq!(r.max_alias_lenght, Some(4294967295));
        }
        _ => panic!("another rule"),
    }
    let mut config = no_config();
    config.insert("min_alias_length".to_string(), Value::Int(-1));
    assert_eq!(rule.load_from_config(&config).err().unwrap().option, "min_alias_length");
    let mut config = no_config();
    config.insert("max_alias_length".to_string(), Value::Int(4294967296));
    assert_eq!(rule.load_from_config(&config).err().unwrap().option, "max_alias_length");
    let mut config = no_config();
    config.insert("min_alias_length".to_string(), Value::Bool(true));
    assert_eq!(rule.load_from_config(&config).err().unwrap().option, "min_alias_length");
    let mut config = no_config();
    config.insert("something_else".to_string(), Value::Bool(true));
    assert!(rule.load_from_config(&config).is_ok());
}

#[test]
fn test_options_of_the_select_targets_rule() {
    let rule = RuleLT09::default();
    assert_eq!(rule.wildcard_policy, WildcardPolicy::Single);
    let mut config = no_config();
    config.insert("wildcard_policy".to_string(), Value::String("multiple".to_string()));
    match rule.load_from_config(&config).ok().unwrap() {
        ErasedRule::LT09(r) => assert_eq!(r.wildcard_policy, WildcardPolicy::Multiple),
        _ => panic!("another rule"),
    }
    let mut config = no_config();
    config.insert("wildcard_policy".to_string(), Value::String("single".to_string()));
    match rule.load_from_config(&config).ok().unwrap() {
        ErasedRule::LT09(r) => assert_eq!(r.wildcard_policy, WildcardPolicy::Single),
        _ => panic!("another rule"),
    }
    let mut config = no_config();
    config.insert("wildcard_policy".to_string(), Value::String("none".to_string()));
    assert_eq!(rule.load_from_config(&config).err().unwrap().option, "wildcard_policy");
    let mut config = no_config();
    config.insert("wildcard_policy".to_string(), Value::Int(1));
    assert_eq!(rule.load_from_config(&config).err().unwrap().option, "wildcard_policy");
}

#[test]
fn test_names_descriptions_and_targets_of_the_rules() {
    let rules: Vec<ErasedRule> = vec![
        RuleAL06::default().erased(),
        RuleAL09::default().erased(),
        RuleAM02::default().erased(),
        RuleCV05::default().erased(),
        RuleLT09::default().erased(),
        RuleST08::default().erased(),
    ];
    let names: Vec<&str> = rules.iter().map(|r| r.name()).collect();
    assert_eq!(
        names,
        vec![
            "aliasing.lenght",
            "aliasing.self_alias.column",
            "ambiguous.union",
            "convention.is_null",
            "layout.select_targets",
            "structure.distinc",
        ]
    );
    assert_eq!(rules[0].description(), "Identify aliases in from clause and join conditions");
    assert_eq!(rules[1].description(), "Find self-aliased columns and fix them");
    assert_eq!(
        rules[2].description(),
        "Look for UNION keyword not immediately followed by DISTINCT or ALL"
    );
    assert_eq!(
        rules[3].description(),
        "Relational operators should not be used to check for NULL values."
    );
    assert_eq!(rules[5].description(), "Looking for DISTINCT before a bracket");
    let targets: Vec<Vec<String>> = rules
        .iter()
        .map(|r| match r.crawl_behaviour() {
            Crawler::SegmentSeeker(s) => {
                assert!(s.allow_recurse);
                s.types
            }
            Crawler::RootOnly => vec![],
        })
        .collect();
    assert_eq!(targets[0], vec!["from_expression_element"]);
    assert_eq!(targets[1], vec!["select_clause"]);
    assert_eq!(targets[2], vec!["set_operator"]);
    assert_eq!(targets[3], vec!["comparison_operator"]);
    assert_eq!(targets[4], vec!["select_clause"]);
    assert_eq!(targets[5], vec!["select_clause", "function"]);
    let config = no_config();
    for r in &rules {
        assert_eq!(r.load_from_config(&config).ok().unwrap().name(), r.name());
    }
}

#[test]
fn test_groups_of_rules() {
    let ambiguous = sqruff_lib::rules::ambiguous::rules();
    assert_eq!(ambiguous.len(), 1);
    assert_eq!(ambiguous[0].name(), "ambiguous.union");
    let convention = sqruff_lib::rules::convention::rules();
    assert_eq!(convention.len(), 1);
    assert_eq!(convention[0].name(), "convention.is_null");
}

#[test]
fn test_alias_length_bounds() {
    let mut a = SegmentArena::new();
    let t = a.add_leaf("naked_identifier", "users");
    let reference = a.add_node("object_reference", vec![t]).unwrap();
    let table = a.add_node("table_expression", vec![reference]).unwrap();
    let ws = a.add_leaf("whitespace", " ");
    let kw = a.add_leaf("keyword", "AS");
    let ws2 = a.add_leaf("whitespace", " ");
    let name = a.add_leaf("naked_identifier", "usr");
    let alias = a.add_node("alias_expression", vec![kw, ws2, name]).unwrap();
    let element = a.add_node("from_expression_element", vec![table, ws, alias]).unwrap();
    let bare = a.add_node("from_expression_element", vec![table]).unwrap();
    let unnamed = a.add_node("from_expression_element", vec![alias]).unwrap();
    let within = RuleAL06 { min_alias_lenght: Some(3), max_alias_lenght: Some(3) };
    assert!(within.lint_aliases(&a, vec![element, bare, unnamed]).is_empty());
    let short = RuleAL06 { min_alias_lenght: Some(4), max_alias_lenght: None };
    let found = short.lint_aliases(&a, vec![bare, element]);
    assert_eq!(found.len(), 1);
    assert_eq!(found[0].anchor, name);
    assert!(found[0].fixes.is_empty());
    assert_eq!(
        found[0].description.as_deref(),
        Some("Aliases should be at least 'Some(4)' character(s) long")
    );
    let long = RuleAL06 { min_alias_lenght: None, max_alias_lenght: Some(2) };
    let found = long.lint_aliases(&a, vec![element, element]);
    assert_eq!(found.len(), 2);
    assert_eq!(
        found[1].description.as_deref(),
        Some("Aliases should be no more than 'Some(2)' character(s) long.")
    );
    let both = RuleAL06 { min_alias_lenght: Some(5), max_alias_lenght: Some(1) };
    assert_eq!(both.lint_aliases(&a, vec![element]).len(), 2);
    assert_eq!(at_least_message("7"), "Aliases should be at least '7' character(s) long");
    assert_eq!(no_more_than_message("7"), "Aliases should be no more than '7' character(s) long.");
}

#[test]
fn test_self_alias_is_compared_in_upper_case() {
    let (a, root) = self_aliased();
    let config = no_config();
    let report = lint_tree(&a, root, "ansi", &vec![RuleAL09::default().erased()], &config);
    assert_eq!(report.violations.len(), 1);
    let found = RuleAL09::judge_alias("A", "A", &vec![4, 5], 7, 9).ok().unwrap();
    assert_eq!(found.len(), 1);
    assert_eq!(found[0].anchor, 4);
    assert_eq!(found[0].fixes.len(), 2);
    assert_eq!(found[0].fixes[0].anchor, 7);
    assert_eq!(found[0].fixes[0].edit_type, EditType::Delete);
    assert_eq!(found[0].fixes[1].anchor, 9);
    assert_eq!(found[0].fixes[1].edit_type, EditType::Delete);
    assert!(RuleAL09::judge_alias("A", "B", &vec![4], 7, 9).ok().unwrap().is_empty());
    assert!(RuleAL09::judge_alias("A", "B", &vec![], 7, 9).ok().unwrap().is_empty());
    assert!(RuleAL09::judge_alias("A", "A", &vec![], 7, 9).is_err());
}

#[test]
fn test_a_rule_that_cannot_evaluate_a_segment_is_reported() {
    // An aliased column without whitespace before the alias.
    let mut a = SegmentArena::new();
    let select = a.add_leaf("keyword", "SELECT");
    let ws1 = a.add_leaf("whitespace", " ");
    let name = a.add_leaf("naked_identifier", "a");
    let column = a.add_node("column_reference", vec![name]).unwrap();
    let nl = a.add_leaf("newline", "\n");
    let alias_name = a.add_leaf("naked_identifier", "a");
    let alias = a.add_node("alias_expression", vec![alias_name]).unwrap();
    let element = a.add_node("select_clause_element", vec![column, nl, alias]).unwrap();
    let clause = a.add_node("select_clause", vec![select, ws1, element]).unwrap();
    // A set operator without children.
    let ws2 = a.add_leaf("whitespace", " ");
    let union = a.add_leaf("set_operator", "UNION");
    let root = a.add_node("file", vec![clause, ws2, union]).unwrap();
    let config = no_config();
    let rules = vec![RuleAL09::default().erased(), RuleAM02::default().erased()];
    let report = lint_tree(&a, root, "ansi", &rules, &config);
    assert!(report.violations.is_empty());
    assert_eq!(report.diagnostics.len(), 2);
    assert!(matches!(
        &report.diagnostics[0],
        Diagnostic::RuleEvalFault { rule_name, segment }
            if rule_name == "aliasing.self_alias.column" && *segment == clause
    ));
    assert!(matches!(
        &report.diagnostics[1],
        Diagnostic::RuleEvalFault { rule_name, segment }
            if rule_name == "ambiguous.union" && *segment == union
    ));
    // The run goes on and converges: nothing was proposed.
    let outcome = fix_tree(&mut a, root, "ansi", &rules, &config, 10);
    assert_eq!(outcome.state, FixState::Converged);
    assert_eq!(outcome.diagnostics.len(), 2);
}

#[test]
fn test_union_is_classified_by_its_text() {
    assert_eq!(classify_union("union", "UNION"), Some(true));
    assert_eq!(classify_union("UNION", "UNION"), Some(false));
    assert_eq!(classify_union("Union", "UNION"), Some(false));
    assert_eq!(classify_union("union all", "UNION ALL"), None);
    assert_eq!(classify_union("UNION DISTINCT", "UNION DISTINCT"), None);
    assert_eq!(classify_union("except", "EXCEPT"), None);
    let lower = union_distinct_edit(true);
    assert!(matches!(&lower[0], EditSegment::New { kind, raw } if kind == "keyword" && raw == "union"));
    assert!(matches!(&lower[1], EditSegment::New { kind, raw } if kind == "whitespace" && raw == " "));
    assert!(matches!(&lower[2], EditSegment::New { kind, raw } if kind == "keyword" && raw == "distinct"));
    let upper = union_distinct_edit(false);
    assert!(matches!(&upper[0], EditSegment::New { raw, .. } if raw == "UNION"));
    assert!(matches!(&upper[2], EditSegment::New { raw, .. } if raw == "DISTINCT"));
}

#[test]
fn test_correction_items_become_segments() {
    let items = vec![
        CorrectionListItem::KeywordSegment("IS".to_string()),
        CorrectionListItem::WhitespaceSegment,
        CorrectionListItem::KeywordSegment("NOT".to_string()),
    ];
    let edit = edit_of(&items);
    assert_eq!(edit.len(), 3);
    assert!(matches!(&edit[0], EditSegment::New { kind, raw } if kind == "keyword" && raw == "IS"));
    assert!(matches!(&edit[1], EditSegment::New { kind, raw } if kind == "whitespace" && raw == " "));
    assert!(matches!(&edit[2], EditSegment::New { kind, raw } if kind == "keyword" && raw == "NOT"));
}

#[test]
fn test_places_are_ordered_with_absent_first() {
    assert!(is_place_before(None, Some(0)));
    assert!(is_place_before(Some(1), Some(2)));
    assert!(!is_place_before(Some(2), Some(2)));
    assert!(!is_place_before(Some(3), Some(2)));
    assert!(!is_place_before(Some(3), None));
    assert!(!is_place_before(None, None));
}

#[test]
fn test_spacing_between_tokens() {
    let config = no_config();
    assert_eq!(spacing_policy(&config, "keyword", "naked_identifier"), Spacing::Single);
    assert_eq!(spacing_policy(&config, "naked_identifier", "comma"), Spacing::Touch);
    assert_eq!(spacing_policy(&config, "comma", "naked_identifier"), Spacing::Single);
    assert_eq!(spacing_policy(&config, "start_bracket", "naked_identifier"), Spacing::Touch);
    assert_eq!(spacing_policy(&config, "naked_identifier", "end_bracket"), Spacing::Touch);
    assert_eq!(spacing_policy(&config, "naked_identifier", "dot"), Spacing::Touch);
    assert_eq!(spacing_policy(&config, "dot", "naked_identifier"), Spacing::Touch);
    assert_eq!(spacing_policy(&config, "naked_identifier", "statement_terminator"), Spacing::Touch);
    assert_eq!(spacing_policy(&config, "function_name_identifier", "start_bracket"), Spacing::Touch);
    assert_eq!(spacing_policy(&config, "keyword", "start_bracket"), Spacing::Single);
    assert_eq!(spacing_policy(&config, "naked_identifier", "casting_operator"), Spacing::Touch);
    assert_eq!(spacing_policy(&config, "inline_comment", "comma"), Spacing::Any);
    assert_eq!(spacing_policy(&config, "keyword", "comment"), Spacing::Any);
}

#[test]
fn test_options_set_the_spacing_of_a_type() {
    let mut config = no_config();
    config.insert("layout.type.comma.spacing_before".to_string(), Value::String("single".to_string()));
    config.insert("layout.type.comma.spacing_after".to_string(), Value::String("touch".to_string()));
    config.insert("layout.type.keyword.spacing_after".to_string(), Value::String("any".to_string()));
    config.insert("layout.type.star.spacing_before".to_string(), Value::String("wide".to_string()));
    config.insert("layout.type.dot.spacing_before".to_string(), Value::Int(1));
    assert_eq!(spacing_of(&config, "comma", true), Spacing::Single);
    assert_eq!(spacing_of(&config, "comma", false), Spacing::Touch);
    assert_eq!(spacing_of(&config, "keyword", false), Spacing::Any);
    assert_eq!(spacing_of(&config, "keyword", true), Spacing::Single);
    assert_eq!(spacing_of(&config, "star", true), Spacing::Single);
    assert_eq!(spacing_of(&config, "dot", true), Spacing::Touch);
    assert_eq!(spacing_policy(&config, "naked_identifier", "comma"), Spacing::Single);
    assert_eq!(spacing_policy(&config, "comma", "naked_identifier"), Spacing::Touch);
    assert_eq!(spacing_policy(&config, "keyword", "naked_identifier"), Spacing::Any);
    assert_eq!(spacing_policy(&config, "keyword", "end_bracket"), Spacing::Touch);
    assert_eq!(spacing_policy(&config, "keyword", "inline_comment"), Spacing::Any);
    let (mut a, root) = spaced();
    let seq = ReflowSequence::from_around_target(&a, 9, root, ReflowSide::Both, &config).ok().unwrap();
    let fixes = seq.respace(false, Filter::All).fixes();
    // Now the comma wants one space in front and none behind.
    assert_eq!(shown(&fixes), vec![(EditType::Replace, 1, 1)]);
    let next = rebuild(&mut a, root, &fixes);
    assert_eq!(a.raw_of(next), "a ,b \n  c");
}

/// The tree of `a  ,b` followed by a line break and `c`, with a marker
/// in the first gap.
fn spaced() -> (SegmentArena, usize) {
    let mut a = SegmentArena::new();
    assert_eq!(a.add_leaf("naked_identifier", "a"), 0);
    assert_eq!(a.add_leaf("whitespace", "  "), 1);
    assert_eq!(a.add_leaf("indent", ""), 2);
    assert_eq!(a.add_leaf("comma", ","), 3);
    assert_eq!(a.add_leaf("naked_identifier", "b"), 4);
    assert_eq!(a.add_leaf("whitespace", " "), 5);
    assert_eq!(a.add_leaf("newline", "\n"), 6);
    assert_eq!(a.add_leaf("whitespace", "  "), 7);
    assert_eq!(a.add_leaf("naked_identifier", "c"), 8);
    assert_eq!(a.add_node("list", vec![0, 1, 2, 3, 4]), Some(9));
    assert_eq!(a.add_node("file", vec![9, 5, 6, 7, 8]), Some(10));
    (a, 10)
}

fn shown(fixes: &Vec<LintFix>) -> Vec<(EditType, usize, usize)> {
    fixes.iter().map(|f| (f.edit_type, f.anchor, f.edit.len())).collect()
}

#[test]
fn test_sequence_reaches_out_to_the_next_tokens() {
    let config = no_config();
    let (a, root) = spaced();
    let both = ReflowSequence::from_around_target(&a, 3, root, ReflowSide::Both, &config).ok().unwrap();
    let leaves: Vec<Option<usize>> = both.elements.iter().map(|e| e.segment).collect();
    assert_eq!(leaves, vec![Some(0), Some(1), Some(2), Some(3), Some(4)]);
    assert_eq!(both.elements[1].kind, "whitespace");
    assert_eq!(both.elements[1].raw, "  ");
    assert!(both.fixes.is_empty());
    let before = ReflowSequence::from_around_target(&a, 3, root, ReflowSide::Before, &config).ok().unwrap();
    assert_eq!(before.elements.len(), 4);
    let after = ReflowSequence::from_around_target(&a, 3, root, ReflowSide::After, &config).ok().unwrap();
    let leaves: Vec<Option<usize>> = after.elements.iter().map(|e| e.segment).collect();
    assert_eq!(leaves, vec![Some(3), Some(4)]);
    let wide = ReflowSequence::from_around_target(&a, 4, root, ReflowSide::After, &config).ok().unwrap();
    let leaves: Vec<Option<usize>> = wide.elements.iter().map(|e| e.segment).collect();
    assert_eq!(leaves, vec![Some(4), Some(5), Some(6), Some(7), Some(8)]);
    let edge = ReflowSequence::from_around_target(&a, 0, root, ReflowSide::Before, &config).ok().unwrap();
    assert_eq!(edge.elements.len(), 1);
    let end = ReflowSequence::from_around_target(&a, 8, root, ReflowSide::After, &config).ok().unwrap();
    assert_eq!(end.elements.len(), 1);
    let whole = ReflowSequence::from_around_target(&a, 9, root, ReflowSide::Both, &config).ok().unwrap();
    assert_eq!(whole.elements.len(), 9);
    // A segment that is not in the tree below the root.
    let e = ReflowSequence::from_around_target(&a, 8, 9, ReflowSide::Both, &config).err().unwrap();
    assert_eq!(e.segment, 8);
}

#[test]
fn test_respace_gives_each_gap_its_spacing() {
    let config = no_config();
    let (a, root) = spaced();
    let seq = ReflowSequence::from_around_target(&a, 9, root, ReflowSide::Both, &config).ok().unwrap();
    let fixes = seq.respace(false, Filter::All).fixes();
    // `a  ,`: the comma touches. `,b`: a space is missing. The gap with the
    // line break is left alone.
    assert_eq!(
        shown(&fixes),
        vec![(EditType::Delete, 1, 0), (EditType::CreateAfter, 3, 1)]
    );
    assert!(matches!(&fixes[1].edit[0], EditSegment::New { kind, raw } if kind == "whitespace" && raw == " "));
    let seq = ReflowSequence::from_around_target(&a, 9, root, ReflowSide::Both, &config).ok().unwrap();
    let fixes = seq.respace(true, Filter::All).fixes();
    // With line breaks stripped, the last gap becomes a single space too.
    assert_eq!(
        shown(&fixes),
        vec![
            (EditType::Delete, 1, 0),
            (EditType::CreateAfter, 3, 1),
            (EditType::Delete, 6, 0),
            (EditType::Delete, 7, 0),
        ]
    );
    let seq = ReflowSequence::from_around_target(&a, 9, root, ReflowSide::Both, &config).ok().unwrap();
    assert_eq!(shown(&seq.respace(true, Filter::Newline).fixes()), vec![
        (EditType::Delete, 6, 0),
        (EditType::Delete, 7, 0),
    ]);
    let seq = ReflowSequence::from_around_target(&a, 9, root, ReflowSide::Both, &config).ok().unwrap();
    assert_eq!(shown(&seq.respace(true, Filter::Inline).fixes()), vec![
        (EditType::Delete, 1, 0),
        (EditType::CreateAfter, 3, 1),
    ]);
    let seq = ReflowSequence::from_around_target(&a, 9, root, ReflowSide::Both, &config).ok().unwrap();
    assert!(seq.respace(false, Filter::Newline).fixes().is_empty());
}

#[test]
fn test_respace_makes_wide_whitespace_a_single_space() {
    let config = no_config();
    let mut a = SegmentArena::new();
    let x = a.add_leaf("keyword", "SELECT");
    let w1 = a.add_leaf("whitespace", "\t");
    let w2 = a.add_leaf("whitespace", " ");
    let y = a.add_leaf("naked_identifier", "a");
    let root = a.add_node("file", vec![x, w1, w2, y]).unwrap();
    let seq = ReflowSequence::from_around_target(&a, x, root, ReflowSide::After, &config).ok().unwrap();
    let fixes = seq.respace(false, Filter::All).fixes();
    assert_eq!(shown(&fixes), vec![(EditType::Replace, w1, 1), (EditType::Delete, w2, 0)]);
    let plan = fixes;
    let next = rebuild(&mut a, root, &plan);
    assert_eq!(a.raw_of(next), "SELECT a");
}

#[test]
fn test_respace_keeps_every_token() {
    let config = no_config();
    let (mut a, root) = spaced();
    let before = tokens(&a, root);
    let seq = ReflowSequence::from_around_target(&a, 9, root, ReflowSide::Both, &config).ok().unwrap();
    let fixes = seq.respace(true, Filter::All).fixes();
    let next = rebuild(&mut a, root, &fixes);
    assert_eq!(a.raw_of(next), "a, b c");
    assert_eq!(tokens(&a, next), before);
    assert_eq!(before.len(), 4);
}

#[test]
fn test_replace_stages_new_leaves() {
    let config = no_config();
    let (a, root) = spaced();
    let seq = ReflowSequence::from_around_target(&a, 3, root, ReflowSide::Both, &config).ok().unwrap();
    let seq = seq
        .replace(3, vec![EditSegment::keyword("AND"), EditSegment::Existing(8)])
        .ok()
        .unwrap();
    let leaves: Vec<Option<usize>> = seq.elements.iter().map(|e| e.segment).collect();
    assert_eq!(leaves, vec![Some(0), Some(1), Some(2), None, None, Some(4)]);
    assert_eq!(seq.elements[3].raw, "AND");
    assert_eq!(seq.elements[4].raw, "c");
    assert_eq!(shown(&seq.fixes), vec![(EditType::Replace, 3, 2)]);
    let fixes = seq.respace(false, Filter::All).fixes();
    // In front of the staged keyword the wide whitespace becomes one space;
    // behind the staged leaves a space goes in front of the next token.
    assert_eq!(
        shown(&fixes),
        vec![
            (EditType::Replace, 3, 2),
            (EditType::Replace, 1, 1),
            (EditType::CreateBefore, 4, 1),
        ]
    );
    // A segment that is not in the sequence, or an edit that takes a
    // segment the arena does not hold.
    let seq = ReflowSequence::from_around_target(&a, 3, root, ReflowSide::Both, &config).ok().unwrap();
    assert_eq!(seq.replace(8, vec![]).err().unwrap().segment, 8);
    let seq = ReflowSequence::from_around_target(&a, 3, root, ReflowSide::Both, &config).ok().unwrap();
    assert_eq!(seq.replace(3, vec![EditSegment::Existing(77)]).err().unwrap().segment, 3);
}

#[test]
fn test_brackets_after_distinct() {
    // SELECT DISTINCT(a): select_clause [SELECT, " ", modifier, element].
    let mut a = SegmentArena::new();
    let select = a.add_leaf("keyword", "SELECT");
    let ws = a.add_leaf("whitespace", " ");
    let kw = a.add_leaf("keyword", "DISTINCT");
    let modifier = a.add_node("select_clause_modifier", vec![kw]).unwrap();
    let open = a.add_leaf("start_bracket", "(");
    let indent = a.add_leaf("indent", "");
    let name = a.add_leaf("naked_identifier", "a");
    let column = a.add_node("column_reference", vec![name]).unwrap();
    let dedent = a.add_leaf("dedent", "");
    let close = a.add_leaf("end_bracket", ")");
    let bracketed = a.add_node("bracketed", vec![open, indent, column, dedent, close]).unwrap();
    let expression = a.add_node("expression", vec![bracketed]).unwrap();
    let element = a.add_node("select_clause_element", vec![expression]).unwrap();
    let clause = a.add_node("select_clause", vec![select, ws, modifier, element]).unwrap();
    let root = a.add_node("file", vec![clause]).unwrap();
    assert_eq!(a.raw_of(root), "SELECT DISTINCT(a)");
    assert_eq!(
        RuleST08::filter_meta(&a, &[open, indent, column, dedent, close], false),
        vec![open, column, close]
    );
    assert_eq!(
        RuleST08::filter_meta(&a, &[open, indent, column, dedent, close], true),
        vec![indent, dedent]
    );
    assert_eq!(RuleST08::inner_segments(&a, bracketed), vec![column]);
    assert_eq!(RuleST08::inner_segments(&a, column), Vec::<usize>::new());
    let config = no_config();
    let contexts = SegmentSeekerCrawler::for_type("select_clause").crawl(&a, root, "ansi", &config);
    assert_eq!(contexts.len(), 1);
    let picked = Segments::from_segment(&a, bracketed);
    let (anchor, seq) = RuleST08::default().remove_unneeded_brackets(&contexts[0], picked).unwrap();
    assert_eq!(anchor, bracketed);
    let leaves: Vec<Option<usize>> = seq.elements.iter().map(|e| e.segment).collect();
    assert_eq!(leaves, vec![Some(kw), None]);
    assert_eq!(shown(&seq.fixes), vec![(EditType::Replace, bracketed, 1)]);
    let none = Segments::new(&a, vec![]);
    assert!(RuleST08::default().remove_unneeded_brackets(&contexts[0], none).is_none());
    let found = RuleST08::default().eval(&contexts[0]).ok().unwrap();
    assert_eq!(found.len(), 1);
    assert_eq!(found[0].anchor, bracketed);
    assert_eq!(
        shown(&found[0].fixes),
        vec![(EditType::Replace, bracketed, 1), (EditType::CreateAfter, kw, 1)]
    );
    let rules = vec![RuleST08::default().erased()];
    let outcome = fix_tree(&mut a, root, "ansi", &rules, &config, 10);
    assert_eq!(outcome.state, FixState::Converged);
    assert_eq!(a.raw_of(outcome.root), "SELECT DISTINCT a");
}

#[test]
fn test_distinct_call_is_rewritten_by_its_name() {
    let mut a = SegmentArena::new();
    let open = a.add_leaf("start_bracket", "(");
    let name = a.add_leaf("naked_identifier", "k");
    let close = a.add_leaf("end_bracket", ")");
    let bracketed = a.add_node("bracketed", vec![open, name, close]).unwrap();
    let found = RuleST08::rewrite_distinct_call(&a, 9, Some("DISTINCT".to_string()), Some(bracketed));
    assert_eq!(found.len(), 1);
    assert_eq!(found[0].anchor, 9);
    assert_eq!(shown(&found[0].fixes), vec![(EditType::Replace, 9, 3)]);
    assert!(matches!(&found[0].fixes[0].edit[0], EditSegment::New { kind, raw } if kind == "keyword" && raw == "DISTINCT"));
    assert!(matches!(&found[0].fixes[0].edit[1], EditSegment::New { kind, raw } if kind == "whitespace" && raw == " "));
    assert!(matches!(found[0].fixes[0].edit[2], EditSegment::Existing(k) if k == name));
    assert!(RuleST08::rewrite_distinct_call(&a, 9, Some("COUNT".to_string()), Some(bracketed)).is_empty());
    assert!(RuleST08::rewrite_distinct_call(&a, 9, Some("distinct".to_string()), Some(bracketed)).is_empty());
    assert!(RuleST08::rewrite_distinct_call(&a, 9, None, Some(bracketed)).is_empty());
    assert!(RuleST08::rewrite_distinct_call(&a, 9, Some("DISTINCT".to_string()), None).is_empty());
}

#[test]
fn test_a_target_on_its_own_line_moves_up_with_what_stood_between() {
    // select, two line breaks, indentation, the target, a line break, from.
    let mut a = SegmentArena::new();
    let select = a.add_leaf("keyword", "SELECT");
    let nl1 = a.add_leaf("newline", "\n");
    let nl2 = a.add_leaf("newline", "\n");
    let ws = a.add_leaf("whitespace", "    ");
    let name = a.add_leaf("naked_identifier", "a");
    let element = a.add_node("select_clause_element", vec![name]).unwrap();
    let clause = a.add_node("select_clause", vec![select, nl1, nl2, ws, element]).unwrap();
    let nl3 = a.add_leaf("newline", "\n");
    let from = a.add_leaf("keyword", "from");
    let from_clause = a.add_node("from_clause", vec![from]).unwrap();
    let statement = a.add_node("select_statement", vec![clause, nl3, from_clause]).unwrap();
    let root = a.add_node("file", vec![statement]).unwrap();
    assert_eq!(a.raw_of(root), "SELECT\n\n    a\nfrom");
    let config = no_config();
    let contexts = SegmentSeekerCrawler::for_type("select_clause").crawl(&a, root, "ansi", &config);
    let info = RuleLT09::get_indexes(&contexts[0]).ok().unwrap();
    assert_eq!(info.select_idx, Some(0));
    assert_eq!(info.first_new_line_idx, Some(1));
    assert_eq!(info.first_select_target_idx, Some(4));
    assert_eq!(info.first_whitespace_idx, Some(3));
    assert_eq!(info.comment_after_select_idx, None);
    assert_eq!(info.select_targets, vec![element]);
    assert_eq!(info.from_segment, Some(from_clause));
    assert_eq!(info.pre_from_whitespace, Vec::<usize>::new());
    let found = RuleLT09::default().eval_single_select_target_element(&info, &contexts[0]).ok().unwrap();
    assert_eq!(found.len(), 1);
    assert_eq!(found[0].anchor, clause);
    assert_eq!(
        shown(&found[0].fixes),
        vec![
            (EditType::Delete, element, 0),
            (EditType::Delete, nl3, 0),
            (EditType::Delete, ws, 0),
            (EditType::Delete, nl2, 0),
            (EditType::CreateAfter, clause, 2),
            (EditType::Replace, nl1, 2),
        ]
    );
    assert!(matches!(&found[0].fixes[4].edit[0], EditSegment::New { kind, .. } if kind == "newline"));
    assert!(matches!(found[0].fixes[4].edit[1], EditSegment::Existing(k) if k == nl2));
    assert!(RuleLT09::default().eval_multiple_select_target_elements(&info, clause).is_empty());
    let rules = vec![RuleLT09::default().erased()];
    let outcome = fix_tree(&mut a, root, "ansi", &rules, &config, 10);
    assert_eq!(outcome.state, FixState::Converged);
    assert_eq!(a.raw_of(outcome.root), "SELECT a\n\nfrom");
}

#[test]
fn test_a_select_clause_that_the_rule_cannot_lay_out_is_a_fault() {
    // A modifier behind the line break.
    let mut a = SegmentArena::new();
    let select = a.add_leaf("keyword", "select");
    let nl = a.add_leaf("newline", "\n");
    let kw = a.add_leaf("keyword", "distinct");
    let modifier = a.add_node("select_clause_modifier", vec![kw]).unwrap();
    let ws = a.add_leaf("whitespace", " ");
    let name = a.add_leaf("naked_identifier", "a");
    let element = a.add_node("select_clause_element", vec![name]).unwrap();
    let clause = a.add_node("select_clause", vec![select, nl, modifier, ws, element]).unwrap();
    let root = a.add_node("file", vec![clause]).unwrap();
    let config = no_config();
    let report = lint_tree(&a, root, "ansi", &vec![RuleLT09::default().erased()], &config);
    assert!(report.violations.is_empty());
    assert_eq!(report.diagnostics.len(), 1);
    assert!(matches!(
        &report.diagnostics[0],
        Diagnostic::RuleEvalFault { rule_name, segment }
            if rule_name == "layout.select_targets" && *segment == clause
    ));
}

#[test]
fn test_a_lone_wildcard_counts_as_the_policy_says() {
    let mut a = SegmentArena::new();
    let select = a.add_leaf("keyword", "select");
    let nl = a.add_leaf("newline", "\n");
    let star = a.add_leaf("star", "*");
    let wildcard = a.add_node("wildcard_expression", vec![star]).unwrap();
    let element = a.add_node("select_clause_element", vec![wildcard]).unwrap();
    let clause = a.add_node("select_clause", vec![select, nl, element]).unwrap();
    let root = a.add_node("file", vec![clause]).unwrap();
    let config = no_config();
    let single = vec![RuleLT09 { wildcard_policy: WildcardPolicy::Single }.erased()];
    assert_eq!(evaluate(&single, &a, root, "ansi", &config).results.len(), 1);
    let multiple = vec![RuleLT09 { wildcard_policy: WildcardPolicy::Multiple }.erased()];
    assert_eq!(evaluate(&multiple, &a, root, "ansi", &config).results.len(), 0);
    // A run configures the rules anew: the options decide.
    assert_eq!(lint_tree(&a, root, "ansi", &multiple, &config).violations.len(), 1);
    let mut config = no_config();
    config.insert("wildcard_policy".to_string(), Value::String("multiple".to_string()));
    assert_eq!(lint_tree(&a, root, "ansi", &single, &config).violations.len(), 0);
}

#[test]
fn test_violations_come_rule_by_rule_in_document_order() {
    let mut a = SegmentArena::new();
    let mut kids = Vec::new();
    for (i, raw) in ["UNION", "union", "Union all", "UNION"].iter().enumerate() {
        if i > 0 {
            kids.push(a.add_leaf("newline", "\n"));
        }
        let kw = a.add_leaf("keyword", raw);
        kids.push(a.add_node("set_operator", vec![kw]).unwrap());
    }
    let root = a.add_node("file", kids).unwrap();
    let config = no_config();
    let rules = vec![RuleAM02::default().erased()];
    let report = lint_tree(&a, root, "ansi", &rules, &config);
    let lines: Vec<usize> = report.violations.iter().map(|v| v.position.line_no).collect();
    assert_eq!(lines, vec![1, 2, 4]);
    assert_eq!(
        report.violations[0].message,
        "Look for UNION keyword not immediately followed by DISTINCT or ALL"
    );
    assert_eq!(report.violations[2].position, PositionMarker { offset: 22, line_no: 4, line_pos: 1 });
    // The rule does not apply to other dialects.
    assert!(lint_tree(&a, root, "postgres", &rules, &config).violations.is_empty());
    assert_eq!(lint_tree(&a, root, "hive", &rules, &config).violations.len(), 3);
    assert_eq!(lint_tree(&a, root, "mysql", &rules, &config).violations.len(), 3);
    assert_eq!(lint_tree(&a, root, "redshift", &rules, &config).violations.len(), 3);
    let outcome = fix_tree(&mut a, root, "ansi", &rules, &config, 10);
    assert_eq!(outcome.cycles, 1);
    assert_eq!(a.raw_of(outcome.root), "UNION DISTINCT\nunion distinct\nUnion all\nUNION DISTINCT");
}

#[test]
fn test_a_rule_answers_the_same_on_the_same_context() {
    let (a, root) = self_aliased();
    let config = no_config();
    let rule = RuleAL09::default();
    let contexts = rule.crawl_behaviour().crawl(&a, root, "ansi", &config);
    assert_eq!(contexts.len(), 1);
    let first = rule.eval(&contexts[0]).ok().unwrap();
    let second = rule.eval(&contexts[0]).ok().unwrap();
    assert_eq!(first.len(), 1);
    assert_eq!(second.len(), 1);
    assert_eq!(first[0].anchor, second[0].anchor);
    assert_eq!(first[0].description, second[0].description);
    assert_eq!(shown(&first[0].fixes), shown(&second[0].fixes));
}

#[test]
fn test_a_stale_fix_is_skipped_and_reported() {
    // DISTINCT(a) as a function call that is all of the root expression:
    // the rule asks to replace the root, which has no parent.
    let mut a = SegmentArena::new();
    let name = a.add_leaf("function_name_identifier", "DISTINCT");
    let function_name = a.add_node("function_name", vec![name]).unwrap();
    let open = a.add_leaf("start_bracket", "(");
    let column = a.add_leaf("naked_identifier", "a");
    let close = a.add_leaf("end_bracket", ")");
    let bracketed = a.add_node("bracketed", vec![open, column, close]).unwrap();
    let function = a.add_node("function", vec![function_name, bracketed]).unwrap();
    let root = a.add_node("expression", vec![function]).unwrap();
    let config = no_config();
    let rules = vec![RuleST08::default().erased()];
    let outcome = fix_tree(&mut a, root, "ansi", &rules, &config, 10);
    assert_eq!(outcome.state, FixState::Converged);
    assert_eq!(outcome.cycles, 0);
    assert_eq!(outcome.root, root);
    assert_eq!(outcome.diagnostics.len(), 1);
    assert!(matches!(
        &outcome.diagnostics[0],
        Diagnostic::SkippedFix { rule_name, anchor }
            if rule_name == "structure.distinc" && *anchor == root
    ));
    assert_eq!(a.raw_of(outcome.root), "DISTINCT(a)");
    // One level down the same call is rewritten.
    let top = a.add_node("file", vec![root]).unwrap();
    let outcome = fix_tree(&mut a, top, "ansi", &rules, &config, 10);
    assert_eq!(outcome.state, FixState::Converged);
    assert!(outcome.diagnostics.is_empty());
    assert_eq!(a.raw_of(outcome.root), "DISTINCT a");
}
