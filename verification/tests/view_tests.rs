use std::cmp::Ordering;

use rustytree::events::ScanProgress;
use rustytree::format::ElapsedTime;
use rustytree::tree::{Node, NodeKind, Tree};
use rustytree::view::{
    chevron_glyph, cmp_option_none_last, rebuild_visible_rows, sort_children, status_line, toggle_expand,
    ColumnKind, ExpandedSet, RowEntry, SortDir, SortKey, Status, UiState, COLUMNS,
};

fn dir(name: &str) -> Node {
    Node::new_leaf(name, NodeKind::Dir, 0, Some(0), None, None)
}

fn file(name: &str, size: u64) -> Node {
    Node::new_leaf(name, NodeKind::File, size, Some(size), None, None)
}

fn sample() -> Tree {
    let mut t = Tree::new();
    let r = t.insert(None, dir("root")).unwrap();
    let a = t.insert(Some(r), dir("alpha")).unwrap();
    t.insert(Some(a), file("a1.bin", 100)).unwrap();
    t.insert(Some(a), file("a2.txt", 200)).unwrap();
    let b = t.insert(Some(r), dir("beta")).unwrap();
    t.insert(Some(b), file("b1.bin", 50)).unwrap();
    t.insert(Some(r), file("c.bin", 1000)).unwrap();
    t.aggregate();
    t
}

fn row_names<'a>(tree: &'a Tree, rows: &[RowEntry]) -> Vec<&'a str> {
    rows.iter().map(|r| tree.get(r.id).unwrap().name.as_str()).collect()
}

#[test]
fn view_chevron_is_plus_when_collapsed_and_minus_when_expanded() {
    assert_eq!(chevron_glyph(true, false), "+ ");
    assert_eq!(chevron_glyph(true, true), "- ");
}

#[test]
fn view_chevron_is_blank_when_no_children_regardless_of_expanded() {
    assert_eq!(chevron_glyph(false, false), "  ");
    assert_eq!(chevron_glyph(false, true), "  ");
}

#[test]
fn tree_view_chevron_is_plus_when_collapsed_and_minus_when_expanded() {
    assert_eq!(chevron_glyph(true, false), "+ ");
    assert_eq!(chevron_glyph(true, true), "- ");
}

#[test]
fn tree_view_chevron_is_blank_when_no_children_regardless_of_expanded() {
    assert_eq!(chevron_glyph(false, false), "  ");
    assert_eq!(chevron_glyph(false, true), "  ");
}

#[test]
fn view_flatten_collapsed_root_shows_only_root() {
    let tree = sample();
    let mut state = UiState::default();
    rebuild_visible_rows(&tree, &mut state);
    assert_eq!(state.visible_rows.len(), 1);
}

#[test]
fn tree_view_flatten_collapsed_root_shows_only_root() {
    let tree = sample();
    let mut state = UiState::default();
    rebuild_visible_rows(&tree, &mut state);
    assert_eq!(state.visible_rows.len(), 1);
}

#[test]
fn view_flatten_expanded_root_shows_root_plus_children() {
    let tree = sample();
    let mut state = UiState::default();
    state.expanded.insert(tree.root().unwrap());
    rebuild_visible_rows(&tree, &mut state);
    assert_eq!(state.visible_rows.len(), 4);
}

#[test]
fn tree_view_flatten_expanded_root_shows_root_plus_children() {
    let tree = sample();
    let mut state = UiState::default();
    state.expanded.insert(tree.root().unwrap());
    rebuild_visible_rows(&tree, &mut state);
    assert_eq!(state.visible_rows.len(), 4);
}

#[test]
fn flatten_records_depths() {
    let tree = sample();
    let mut state = UiState::default();
    let root = tree.root().unwrap();
    state.expanded.insert(root);
    let a = tree.get(root).unwrap().children[0];
    state.expanded.insert(a);
    rebuild_visible_rows(&tree, &mut state);
    let depths: Vec<u16> = state.visible_rows.iter().map(|r| r.depth).collect();
    assert_eq!(depths, vec![0, 1, 1, 2, 2, 1]);
    assert_eq!(row_names(&tree, &state.visible_rows), vec!["root", "c.bin", "alpha", "a2.txt", "a1.bin", "beta"]);
}

fn search_b1(tree: &Tree) -> UiState {
    let mut state = UiState { search: "b1".into(), ..Default::default() };
    rebuild_visible_rows(tree, &mut state);
    state
}

#[test]
fn view_search_filters_to_matching_subtrees_and_auto_expands() {
    let tree = sample();
    let state = search_b1(&tree);
    let names = row_names(&tree, &state.visible_rows);
    assert!(names.contains(&"b1.bin"), "got {names:?}");
    assert!(names.contains(&"beta"), "got {names:?}");
    assert!(!names.contains(&"alpha"), "got {names:?}");
    assert!(!names.contains(&"c.bin"), "got {names:?}");
}

#[test]
fn tree_view_search_filters_to_matching_subtrees_and_auto_expands() {
    let tree = sample();
    let state = search_b1(&tree);
    let names = row_names(&tree, &state.visible_rows);
    assert!(names.contains(&"b1.bin"), "got {names:?}");
    assert!(names.contains(&"beta"), "got {names:?}");
    assert!(!names.contains(&"alpha"), "got {names:?}");
    assert!(!names.contains(&"c.bin"), "got {names:?}");
}

#[test]
fn search_cache_is_reused_across_rebuilds_with_same_needle() {
    let tree = sample();
    let mut state = search_b1(&tree);
    let cache_after_first =
        state.search_cache.as_ref().map(|c| (c.needle().to_string(), c.tree_len(), c.matches().clone()));
    let rows_after_first: Vec<RowEntry> = state.visible_rows.clone();
    rebuild_visible_rows(&tree, &mut state);
    let cache_after_second =
        state.search_cache.as_ref().map(|c| (c.needle().to_string(), c.tree_len(), c.matches().clone()));
    assert_eq!(cache_after_first, cache_after_second);
    assert_eq!(rows_after_first, state.visible_rows);
}

#[test]
fn search_cache_invalidates_when_needle_changes() {
    let tree = sample();
    let mut state = search_b1(&tree);
    let first_matches = state.search_cache.as_ref().expect("cache populated for non-empty search").matches().clone();
    state.search = "alpha".into();
    rebuild_visible_rows(&tree, &mut state);
    let second_cache = state.search_cache.as_ref().expect("cache repopulated after needle change");
    assert_eq!(second_cache.needle(), "alpha");
    assert_ne!(*second_cache.matches(), first_matches);
}

#[test]
fn search_cache_drops_when_search_cleared() {
    let tree = sample();
    let mut state = search_b1(&tree);
    assert!(state.search_cache.is_some());
    state.search = String::new();
    rebuild_visible_rows(&tree, &mut state);
    assert!(state.search_cache.is_none());
}

#[test]
fn search_cache_holds_matches_per_node() {
    let tree = sample();
    let state = search_b1(&tree);
    let cache = state.search_cache.as_ref().unwrap();
    assert_eq!(cache.tree_len(), 7);
    assert_eq!(*cache.matches(), vec![true, false, false, false, true, true, false]);
}

#[test]
fn invalidate_search_cache_clears_memo() {
    let tree = sample();
    let mut state = search_b1(&tree);
    assert!(state.search_cache.is_some());
    state.invalidate_search_cache();
    assert!(state.search_cache.is_none());
}

#[test]
fn reset_for_new_scan_preserves_search_and_sort() {
    let tree = sample();
    let root = tree.root().unwrap();
    let mut state = UiState {
        search: "abc".into(),
        sort_key: SortKey::Name,
        sort_dir: SortDir::Asc,
        selected: Some(root),
        rows_dirty: true,
        ..Default::default()
    };
    state.expanded.insert(root);
    state.visible_rows.push(RowEntry { id: root, depth: 0 });
    state.reset_for_new_scan();
    assert_eq!(state.search, "abc");
    assert_eq!(state.sort_key, SortKey::Name);
    assert_eq!(state.sort_dir, SortDir::Asc);
    assert!(state.expanded.is_empty());
    assert_eq!(state.selected, None);
    assert!(state.visible_rows.is_empty());
    assert!(!state.rows_dirty);
    assert!(state.search_cache.is_none());
}

#[test]
fn clearing_search_restores_prior_expansion() {
    let tree = sample();
    let root = tree.root().unwrap();
    let mut state = UiState::default();
    state.expanded.insert(root);
    let baseline = state.expanded.clone();

    state.search = "b1".into();
    rebuild_visible_rows(&tree, &mut state);

    state.search.clear();
    rebuild_visible_rows(&tree, &mut state);

    assert_eq!(state.expanded, baseline, "search should not persist into state.expanded");
    assert_eq!(state.visible_rows.len(), 4);
}

#[test]
fn view_search_is_case_insensitive() {
    let tree = sample();
    let mut state = UiState { search: "ALPHA".into(), ..Default::default() };
    rebuild_visible_rows(&tree, &mut state);
    let names = row_names(&tree, &state.visible_rows);
    assert!(names.contains(&"alpha"));
}

#[test]
fn tree_view_search_is_case_insensitive() {
    let tree = sample();
    let mut state = UiState { search: "ALPHA".into(), ..Default::default() };
    rebuild_visible_rows(&tree, &mut state);
    let names = row_names(&tree, &state.visible_rows);
    assert!(names.contains(&"alpha"));
}

#[test]
fn search_ignores_surrounding_whitespace() {
    let tree = sample();
    let mut state = UiState { search: "  B1 ".into(), ..Default::default() };
    rebuild_visible_rows(&tree, &mut state);
    assert_eq!(row_names(&tree, &state.visible_rows), vec!["root", "beta", "b1.bin"]);
    assert_eq!(state.search_cache.as_ref().unwrap().needle(), "b1");
}

fn sorted_top_level(key: SortKey, dir: SortDir) -> Vec<String> {
    let tree = sample();
    let mut state = UiState { sort_key: key, sort_dir: dir, ..Default::default() };
    state.expanded.insert(tree.root().unwrap());
    rebuild_visible_rows(&tree, &mut state);
    state.visible_rows.iter().skip(1).map(|r| tree.get(r.id).unwrap().name.clone()).collect()
}

#[test]
fn view_sort_by_name_ascending_orders_alphabetically() {
    assert_eq!(sorted_top_level(SortKey::Name, SortDir::Asc), vec!["alpha", "beta", "c.bin"]);
}

#[test]
fn tree_view_sort_by_name_ascending_orders_alphabetically() {
    assert_eq!(sorted_top_level(SortKey::Name, SortDir::Asc), vec!["alpha", "beta", "c.bin"]);
}

#[test]
fn view_sort_by_size_descending_is_default() {
    let tree = sample();
    let mut state = UiState::default();
    state.expanded.insert(tree.root().unwrap());
    rebuild_visible_rows(&tree, &mut state);
    let names: Vec<&str> = row_names(&tree, &state.visible_rows[1..]);
    assert_eq!(names, vec!["c.bin", "alpha", "beta"]);
}

#[test]
fn tree_view_sort_by_size_descending_is_default() {
    let tree = sample();
    let mut state = UiState::default();
    state.expanded.insert(tree.root().unwrap());
    rebuild_visible_rows(&tree, &mut state);
    let names: Vec<&str> = row_names(&tree, &state.visible_rows[1..]);
    assert_eq!(names, vec!["c.bin", "alpha", "beta"]);
}

#[test]
fn sort_by_size_ascending_and_by_counts() {
    assert_eq!(sorted_top_level(SortKey::Size, SortDir::Asc), vec!["beta", "alpha", "c.bin"]);
    assert_eq!(sorted_top_level(SortKey::FileCount, SortDir::Desc), vec!["alpha", "beta", "c.bin"]);
    assert_eq!(sorted_top_level(SortKey::Name, SortDir::Desc), vec!["c.bin", "beta", "alpha"]);
}

#[test]
fn sort_children_is_stable_for_ties() {
    let mut t = Tree::new();
    let r = t.insert(None, dir("root")).unwrap();
    let x = t.insert(Some(r), file("x", 10)).unwrap();
    let y = t.insert(Some(r), file("y", 10)).unwrap();
    let z = t.insert(Some(r), file("z", 20)).unwrap();
    t.aggregate();
    let mut kids = vec![x, y, z];
    sort_children(&mut kids, &t, SortKey::Size, SortDir::Desc);
    assert_eq!(kids, vec![z, x, y]);
    let mut kids = vec![y, x, z];
    sort_children(&mut kids, &t, SortKey::Size, SortDir::Asc);
    assert_eq!(kids, vec![y, x, z]);
}

#[test]
fn toggle_expand_flips_state() {
    let tree = sample();
    let root = tree.root().unwrap();
    let mut set = ExpandedSet::new();
    assert!(toggle_expand(&mut set, root));
    assert!(set.contains(root));
    assert!(!toggle_expand(&mut set, root));
    assert!(!set.contains(root));
}

fn progress(errors: u64) -> ScanProgress {
    ScanProgress { entries: 100, bytes: 4096, errors, current_path: "/tmp/x".to_string() }
}

#[test]
fn status_line_surfaces_io_error_events_while_scanning() {
    let p = progress(7);
    let s = status_line(&Status::Scanning, Some(&p));
    assert!(s.contains("100 entries"), "got {s:?}");
    assert!(s.contains("7 i/o errors"), "got {s:?}");
}

#[test]
fn status_line_surfaces_io_error_events_in_done_state() {
    let p = progress(3);
    let done =
        Status::Done { elapsed: ElapsedTime::from_millis(420), total_bytes: 4096, file_count: 90, dir_count: 7 };
    let s = status_line(&done, Some(&p));
    assert!(s.contains("3 i/o errors"), "got {s:?}");
}

#[test]
fn status_line_omits_error_text_when_no_errors() {
    let p = progress(0);
    let s = status_line(&Status::Scanning, Some(&p));
    assert!(!s.contains("i/o errors"), "got {s:?}");
}

#[test]
fn status_line_texts_for_each_state() {
    assert_eq!(status_line(&Status::Idle, None), "ready");
    assert_eq!(status_line(&Status::Scanning, None), "scanning...");
    assert_eq!(status_line(&Status::Cancelled, None), "cancelled");
    assert_eq!(status_line(&Status::Error("boom".to_string()), None), "error: boom");
    let done =
        Status::Done { elapsed: ElapsedTime::from_millis(420), total_bytes: 4096, file_count: 90, dir_count: 7 };
    assert_eq!(status_line(&done, None), "done in 420ms | 4 KiB | 90 files, 7 dirs");
    let p = progress(2);
    assert_eq!(status_line(&Status::Scanning, Some(&p)), "scanning... 100 entries, 4 KiB so far (/tmp/x) — 2 i/o errors");
}

#[test]
fn cmp_option_none_last_keeps_none_at_bottom_in_both_directions() {
    let a: Option<u8> = Some(1);
    let b: Option<u8> = Some(2);
    let n: Option<u8> = None;

    assert_eq!(cmp_option_none_last(&a, &b, SortDir::Asc), Ordering::Less);
    assert_eq!(cmp_option_none_last(&a, &b, SortDir::Desc), Ordering::Greater);

    assert_eq!(cmp_option_none_last(&a, &n, SortDir::Asc), Ordering::Less);
    assert_eq!(cmp_option_none_last(&a, &n, SortDir::Desc), Ordering::Less);
    assert_eq!(cmp_option_none_last(&n, &a, SortDir::Asc), Ordering::Greater);
    assert_eq!(cmp_option_none_last(&n, &a, SortDir::Desc), Ordering::Greater);

    assert_eq!(cmp_option_none_last(&n, &n, SortDir::Asc), Ordering::Equal);
    assert_eq!(cmp_option_none_last(&n, &n, SortDir::Desc), Ordering::Equal);
}

fn with_three_children(make: impl Fn(&str, usize) -> Node) -> (Tree, Vec<&'static str>) {
    let names = vec!["first", "second", "third"];
    let mut t = Tree::new();
    let r = t.insert(None, dir("root")).unwrap();
    for (i, n) in names.iter().enumerate() {
        t.insert(Some(r), make(n, i)).unwrap();
    }
    t.aggregate();
    (t, names)
}

fn top_level_names(t: &Tree, key: SortKey, dir: SortDir) -> Vec<String> {
    let mut state = UiState::default();
    state.expanded.insert(t.root().unwrap());
    state.sort_key = key;
    state.sort_dir = dir;
    rebuild_visible_rows(t, &mut state);
    state.visible_rows.iter().skip(1).map(|row| t.get(row.id).unwrap().name.clone()).collect()
}

#[test]
fn mtime_sort_keeps_unknown_rows_at_bottom_in_both_directions() {
    let mut t = Tree::new();
    let r = t.insert(None, dir("root")).unwrap();
    t.insert(Some(r), Node::new_leaf("older", NodeKind::File, 10, Some(10), Some(1_000_000 * 1_000_000_000), None)).unwrap();
    t.insert(Some(r), Node::new_leaf("newer", NodeKind::File, 10, Some(10), Some(2_000_000 * 1_000_000_000), None)).unwrap();
    t.insert(Some(r), Node::new_leaf("unknown", NodeKind::File, 10, Some(10), None, None)).unwrap();
    t.aggregate();
    assert_eq!(top_level_names(&t, SortKey::Mtime, SortDir::Asc), vec!["older", "newer", "unknown"]);
    assert_eq!(top_level_names(&t, SortKey::Mtime, SortDir::Desc), vec!["newer", "older", "unknown"]);
}

#[test]
fn owner_sort_keeps_unknown_rows_at_bottom_in_both_directions() {
    let mut t = Tree::new();
    let r = t.insert(None, dir("root")).unwrap();
    t.insert(Some(r), Node::new_leaf("alice_file", NodeKind::File, 10, Some(10), None, Some("alice".into()))).unwrap();
    t.insert(Some(r), Node::new_leaf("bob_file", NodeKind::File, 10, Some(10), None, Some("bob".into()))).unwrap();
    t.insert(Some(r), Node::new_leaf("noowner_file", NodeKind::File, 10, Some(10), None, None)).unwrap();
    t.aggregate();
    assert_eq!(top_level_names(&t, SortKey::Owner, SortDir::Asc), vec!["alice_file", "bob_file", "noowner_file"]);
    assert_eq!(top_level_names(&t, SortKey::Owner, SortDir::Desc), vec!["bob_file", "alice_file", "noowner_file"]);
}

#[test]
fn allocated_sort_orders_by_allocated_totals() {
    let (t, _) = with_three_children(|n, i| Node::new_leaf(n, NodeKind::File, 10, Some([300, 100, 200][i]), None, None));
    assert_eq!(top_level_names(&t, SortKey::Allocated, SortDir::Desc), vec!["first", "third", "second"]);
    assert_eq!(top_level_names(&t, SortKey::Allocated, SortDir::Asc), vec!["second", "third", "first"]);
}

#[test]
fn column_labels_match_expected_set() {
    let labels: Vec<&str> = COLUMNS.iter().map(|c| c.label()).collect();
    assert_eq!(labels, vec!["Name", "Size", "%", "Allocated", "Files", "Dirs", "Modified", "Owner"]);
}

#[test]
fn column_sort_keys() {
    assert_eq!(ColumnKind::Name.sort_key(), Some(SortKey::Name));
    assert_eq!(ColumnKind::PercentOfRoot.sort_key(), Some(SortKey::Size));
    assert_eq!(ColumnKind::Mtime.sort_key(), Some(SortKey::Mtime));
    assert_eq!(SortKey::default(), SortKey::Size);
    assert_eq!(SortDir::default(), SortDir::Desc);
}

#[test]
fn allocated_sort_keeps_unknown_rows_at_bottom_in_both_directions() {
    let mut t = Tree::new();
    let r = t.insert(None, dir("root")).unwrap();
    t.insert(Some(r), Node::new_leaf("small", NodeKind::File, 10, Some(100), None, None)).unwrap();
    t.insert(Some(r), Node::new_leaf("unknown", NodeKind::File, 10, None, None, None)).unwrap();
    t.insert(Some(r), Node::new_leaf("large", NodeKind::File, 10, Some(300), None, None)).unwrap();
    t.aggregate();
    assert_eq!(t.get(r).unwrap().alloc_total, None);
    assert_eq!(top_level_names(&t, SortKey::Allocated, SortDir::Asc), vec!["small", "large", "unknown"]);
    assert_eq!(top_level_names(&t, SortKey::Allocated, SortDir::Desc), vec!["large", "small", "unknown"]);
}
